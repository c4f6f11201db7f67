//! Lengths of strings, and bytes found in strings and blocks.
use vstd::prelude::*;
use crate::membrane::{
    ask_one,
    asks,
    clamp_destination_size_for_repair,
    dest_limit,
    exit_of,
    healed,
    report,
    stage_place,
    truncation,
    verdict,
    CheckStage,
    Cost,
    Event,
    Membrane,
    Query,
    Runtime,
};
use crate::memory::{lane, mapped, sat_sum, wide_read_within_page, Memory, Ptr};
use crate::scan::{
    c_ended,
    c_len,
    extent,
    find,
    is_byte_or_nul,
    is_first,
    is_nul,
    last_at,
    law_last_place_of_a_byte,
    lemma_c_len,
    lemma_find,
    lemma_find_is,
    lemma_last_at,
    lemma_last_at_is,
    opt_int,
    readable,
    scan_c_string,
    scan_c_string_for_byte,
    scan_c_string_last_byte,
    scan_c_string_nul_or_bound,
};
use crate::swar::{swar_splat, swar_word_has_match};

verus! {

/// The low eight bits of an integer.
pub open spec fn low_byte(c: i32) -> u8 {
    (c as int % 256) as u8
}

/// The low eight bits of an integer.
pub fn to_low_byte(c: i32) -> (r: u8)
    ensures
        r == low_byte(c),
{
    let w: i64 = c as i64 + 0x1_0000_0000;
    (w % 256) as u8
}

/// The bound under which `strlen` looks for the NUL.
pub open spec fn strlen_bound(rt: Runtime, s: Ptr) -> Option<usize> {
    if rt.bootstrap || (!rt.strict && rt.raw()) {
        None
    } else {
        s.remaining
    }
}

/// `strlen` goes without the policy.
pub open spec fn strlen_skips(rt: Runtime, s: Ptr) -> bool {
    rt.raw() || rt.strict || (!rt.heals && s.remaining is None)
}

/// The exchanges of `strlen` with the runtime.
pub open spec fn strlen_events(m: Seq<u8>, rt: Runtime, s: Ptr) -> Seq<Event> {
    if s.null() || strlen_skips(rt, s) {
        seq![]
    } else if rt.denies() {
        seq![
            ask_one(s, 0, false),
            rt.outcome_blocks(s, s, Some(CheckStage::Arena)),
            report(Cost::Flat(6), true),
        ]
    } else {
        let len = c_len(m, s.at(), s.remaining) as usize;
        if c_ended(m, s.at(), s.remaining) {
            seq![
                ask_one(s, 0, false),
                rt.outcome_blocks(s, s, Some(CheckStage::Bounds)),
                report(Cost::Scaled(7, len), false),
            ]
        } else {
            seq![
                ask_one(s, 0, false),
                truncation(sat_sum(len, 1), len),
                rt.outcome_blocks(s, s, Some(CheckStage::Bounds)),
                report(Cost::Scaled(7, len), true),
            ]
        }
    }
}

/// The length of the string at `s`; `0` for a null pointer and for a denied
/// call.
///
/// A string in a tracked allocation ends with it.
pub fn strlen(mem: &Memory, s: Ptr, cx: &mut Membrane) -> (r: usize)
    requires
        !s.null() && (strlen_skips(old(cx).rt, s) || !old(cx).rt.denies()) ==> readable(
            mem@,
            s.at(),
            strlen_bound(old(cx).rt, s),
        ),
    ensures
        r == if s.null() || (!strlen_skips(old(cx).rt, s) && old(cx).rt.denies()) {
            0
        } else {
            c_len(mem@, s.at(), strlen_bound(old(cx).rt, s))
        },
        final(cx).follows(*old(cx), strlen_events(mem@, old(cx).rt, s)),
{
    if s.is_null() {
        return 0;
    }
    if cx.rt.bootstrap {
        return scan_c_string(mem, s.addr, None).0;
    }
    if cx.rt.strict {
        return scan_c_string(mem, s.addr, s.remaining).0;
    }
    if cx.string_raw_passthrough_active() {
        return scan_c_string(mem, s.addr, None).0;
    }
    strlen_validating(mem, s, cx)
}

fn strlen_validating(mem: &Memory, s: Ptr, cx: &mut Membrane) -> (r: usize)
    requires
        !s.null() && !old(cx).rt.raw() && !old(cx).rt.strict,
        strlen_skips(old(cx).rt, s) || !old(cx).rt.denies() ==> readable(mem@, s.at(), s.remaining),
    ensures
        r == if !strlen_skips(old(cx).rt, s) && old(cx).rt.denies() {
            0
        } else {
            c_len(mem@, s.at(), s.remaining)
        },
        final(cx).follows(*old(cx), strlen_events(mem@, old(cx).rt, s)),
{
    if !cx.rt.heals && s.remaining.is_none() {
        return scan_c_string(mem, s.addr, None).0;
    }
    if !cx.ask_one(s, 0, false) {
        cx.outcome_blocks(s, s, Some(CheckStage::Arena));
        cx.observe(Cost::Flat(6), true);
        return 0;
    }
    proof {
        lemma_c_len(mem@, s.at(), s.remaining);
    }
    let (len, ended) = scan_c_string(mem, s.addr, s.remaining);
    if !ended {
        cx.record_truncation(len.saturating_add(1), len);
    }
    cx.outcome_blocks(s, s, Some(CheckStage::Bounds));
    cx.observe(Cost::Scaled(7, len), !ended);
    len
}

/// How far `strnlen` looks.
pub open spec fn strnlen_limit(rt: Runtime, s: Ptr, n: usize) -> usize {
    if rt.strict {
        n
    } else {
        dest_limit(n, s.remaining, rt.repairs())
    }
}

/// The exchanges of `strnlen` with the runtime.
pub open spec fn strnlen_events(m: Seq<u8>, rt: Runtime, s: Ptr, n: usize) -> Seq<Event> {
    if n == 0 || rt.strict {
        seq![]
    } else if s.null() {
        seq![rt.outcome_blocks(s, s, Some(CheckStage::Null))]
    } else if rt.denies() {
        seq![
            ask_one(s, n, false),
            rt.outcome_blocks(s, s, Some(CheckStage::Arena)),
            report(Cost::Flat(6), true),
        ]
    } else {
        let limit = strnlen_limit(rt, s, n);
        let note = if limit < n {
            seq![truncation(n, limit)]
        } else {
            seq![]
        };
        seq![ask_one(s, n, false)] + note + seq![
            rt.outcome_blocks(s, s, Some(CheckStage::Bounds)),
            report(Cost::Scaled(7, c_len(m, s.at(), Some(limit)) as usize), limit < n),
        ]
    }
}

/// The length of the string at `s`, or `n` where it is longer; `0` for a null
/// pointer and for a denied call.
pub fn strnlen(mem: &Memory, s: Ptr, n: usize, cx: &mut Membrane) -> (r: usize)
    requires
        n != 0 && !s.null() && old(cx).rt.serves() ==> readable(
            mem@,
            s.at(),
            Some(strnlen_limit(old(cx).rt, s, n)),
        ),
    ensures
        r == if n == 0 || s.null() || !old(cx).rt.serves() {
            0
        } else {
            c_len(mem@, s.at(), Some(strnlen_limit(old(cx).rt, s, n)))
        },
        final(cx).follows(*old(cx), strnlen_events(mem@, old(cx).rt, s, n)),
{
    if n == 0 {
        return 0;
    }
    if cx.rt.strict {
        if s.is_null() {
            return 0;
        }
        return scan_c_string_nul_or_bound(mem, s.addr, n).0;
    }
    if s.is_null() {
        cx.outcome_blocks(s, s, Some(CheckStage::Null));
        return 0;
    }
    if !cx.ask_one(s, n, false) {
        cx.outcome_blocks(s, s, Some(CheckStage::Arena));
        cx.observe(Cost::Flat(6), true);
        return 0;
    }
    let repair: bool = cx.repairs();
    let (limit, cut) = clamp_destination_size_for_repair(n, s.remaining, repair);
    let (len, _ended) = scan_c_string_nul_or_bound(mem, s.addr, limit);
    if cut {
        cx.record_truncation(n, limit);
    }
    cx.outcome_blocks(s, s, Some(CheckStage::Bounds));
    cx.observe(Cost::Scaled(7, len), cut);
    len
}

/// The byte `c`.
pub open spec fn is_byte(c: u8) -> spec_fn(u8) -> bool {
    |b: u8| b == c
}

/// The offset of the first of `n` bytes at `s` that is `c`.
pub fn first_byte(mem: &Memory, s: usize, c: u8, n: usize) -> (r: Option<usize>)
    requires
        mapped(mem@, s as int, n as int),
    ensures
        match r {
            Some(i) => i < n && i == find(mem@, s as int, n as int, is_byte(c)),
            None => find(mem@, s as int, n as int, is_byte(c)) == n,
        },
{
    let size: usize = mem.size();
    let ghost m = mem@;
    let ghost p = is_byte(c);
    let splat: u64 = swar_splat(c);
    let mut i: usize = 0;
    while i < n
        invariant
            m == mem@,
            size == m.len(),
            i <= n,
            s + n <= size,
            p == is_byte(c),
            forall|k: int| 0 <= k < 8 ==> #[trigger] lane(splat, k) == c,
            forall|j: int| s <= j < s + i ==> !p(#[trigger] m[j]),
        decreases n - i,
    {
        let at: usize = s + i;
        if n - i >= 8 && wide_read_within_page(at) {
            let w: u64 = mem.word(at);
            if !swar_word_has_match(w, splat) {
                assert forall|j: int| s <= j < s + i + 8 implies !p(#[trigger] m[j]) by {
                    if j >= at {
                        assert(lane(w, j - at) == m[at + (j - at)]);
                        assert(lane(splat, j - at) == c);
                    }
                }
                i += 8;
                continue;
            }
        }
        if mem.load(at) == c {
            proof {
                assert(is_first(m, s as int, n as int, p, i as int));
                lemma_find_is(m, s as int, n as int, p, i as int);
            }
            return Some(i);
        }
        i += 1;
    }
    proof {
        assert(is_first(m, s as int, n as int, p, i as int));
        lemma_find_is(m, s as int, n as int, p, i as int);
    }
    None
}

/// The offset of the last of `n` bytes at `s` that is `c`.
pub fn last_byte(mem: &Memory, s: usize, c: u8, n: usize) -> (r: Option<usize>)
    requires
        mapped(mem@, s as int, n as int),
    ensures
        opt_int(r) == last_at(mem@, s as int, n as int, c),
{
    let size: usize = mem.size();
    let ghost m = mem@;
    let mut i: usize = n;
    while i > 0
        invariant
            m == mem@,
            size == m.len(),
            i <= n,
            s + n <= size,
            forall|j: int| s + i <= j < s + n ==> #[trigger] m[j] != c,
        decreases i,
    {
        i -= 1;
        if mem.load(s + i) == c {
            proof {
                lemma_last_at_is(m, s as int, n as int, c, Some(i as int));
            }
            return Some(i);
        }
    }
    proof {
        lemma_last_at_is(m, s as int, n as int, c, None);
    }
    None
}

/// How many of `n` bytes a search looks at.
pub open spec fn memchr_len(rt: Runtime, n: usize) -> usize {
    if rt.strict {
        n
    } else {
        rt.clamped(n)
    }
}

/// The exchanges of a search in a block with the runtime.
pub open spec fn memchr_events(rt: Runtime, s: Ptr, n: usize) -> Seq<Event> {
    if rt.strict {
        seq![]
    } else if s.null() {
        seq![rt.outcome_one(s, CheckStage::Null)]
    } else if n == 0 {
        seq![]
    } else if rt.denies() {
        seq![
            ask_one(s, n, false),
            rt.outcome_one(s, CheckStage::Arena),
            report(Cost::Scaled(6, n), true),
        ]
    } else {
        let len = rt.clamped(n);
        seq![ask_one(s, n, false)] + rt.clamp_events(n, s.remaining, None) + seq![
            rt.outcome_one(s, CheckStage::Bounds),
            if len == 0 {
                report(Cost::Scaled(6, n), true)
            } else {
                report(Cost::Scaled(6, len), rt.clamps(n))
            },
        ]
    }
}

/// The part of a search in a block that all searches share: the bytes to look at,
/// or `None` where nothing is looked for.
fn search_len(s: Ptr, n: usize, cx: &mut Membrane) -> (r: Option<usize>)
    requires
        !old(cx).rt.strict,
    ensures
        match r {
            Some(len) => n != 0 && !s.null() && !old(cx).rt.denies() && len
                == old(cx).rt.clamped(n),
            None => n == 0 || s.null() || old(cx).rt.denies() || old(cx).rt.clamped(n) == 0,
        },
        final(cx).follows(*old(cx), memchr_events(old(cx).rt, s, n)),
{
    if s.is_null() {
        cx.outcome_one(s, CheckStage::Null);
        return None;
    }
    if n == 0 {
        return None;
    }
    if !cx.ask_one(s, n, false) {
        cx.outcome_one(s, CheckStage::Arena);
        cx.observe(Cost::Scaled(6, n), true);
        return None;
    }
    let (len, clamped) = cx.maybe_clamp_copy_len(n, s.remaining, None);
    cx.outcome_one(s, CheckStage::Bounds);
    if len == 0 {
        cx.observe(Cost::Scaled(6, n), true);
        return None;
    }
    cx.observe(Cost::Scaled(6, len), clamped);
    Some(len)
}

/// The address of the first of `n` bytes at `s` that is `c`, or null.
pub fn memchr(mem: &Memory, s: Ptr, c: i32, n: usize, cx: &mut Membrane) -> (r: usize)
    requires
        n != 0 && !s.null() && old(cx).rt.serves() ==> mapped(
            mem@,
            s.at(),
            memchr_len(old(cx).rt, n) as int,
        ),
    ensures
        ({
            let len = memchr_len(old(cx).rt, n) as int;
            let i = find(mem@, s.at(), len, is_byte(low_byte(c)));
            r == if n == 0 || s.null() || !old(cx).rt.serves() || i == len {
                0
            } else {
                s.addr + i
            }
        }),
        final(cx).follows(*old(cx), memchr_events(old(cx).rt, s, n)),
{
    let size: usize = mem.size();
    let needle: u8 = to_low_byte(c);
    if cx.rt.strict {
        if n == 0 || s.is_null() {
            return 0;
        }
        return match first_byte(mem, s.addr, needle, n) {
            Some(i) => s.addr + i,
            None => 0,
        };
    }
    match search_len(s, n, cx) {
        Some(len) => match first_byte(mem, s.addr, needle, len) {
            Some(i) => s.addr + i,
            None => 0,
        },
        None => 0,
    }
}

/// The address of the last of `n` bytes at `s` that is `c`, or null.
pub fn memrchr(mem: &Memory, s: Ptr, c: i32, n: usize, cx: &mut Membrane) -> (r: usize)
    requires
        n != 0 && !s.null() && old(cx).rt.serves() ==> mapped(
            mem@,
            s.at(),
            memchr_len(old(cx).rt, n) as int,
        ),
    ensures
        ({
            let len = memchr_len(old(cx).rt, n) as int;
            let i = last_at(mem@, s.at(), len, low_byte(c));
            r == if n == 0 || s.null() || !old(cx).rt.serves() || i is None {
                0
            } else {
                s.addr + i->Some_0
            }
        }),
        final(cx).follows(*old(cx), memchr_events(old(cx).rt, s, n)),
{
    let size: usize = mem.size();
    let needle: u8 = to_low_byte(c);
    if cx.rt.strict {
        if n == 0 || s.is_null() {
            return 0;
        }
        proof {
            lemma_last_at(mem@, s.at(), n as int, needle);
        }
        return match last_byte(mem, s.addr, needle, n) {
            Some(i) => s.addr + i,
            None => 0,
        };
    }
    match search_len(s, n, cx) {
        Some(len) => {
            proof {
                lemma_last_at(mem@, s.at(), len as int, needle);
            }
            match last_byte(mem, s.addr, needle, len) {
                Some(i) => s.addr + i,
                None => 0,
            }
        },
        None => 0,
    }
}

/// As [`memrchr`].
pub fn __memrchr(mem: &Memory, s: Ptr, c: i32, n: usize, cx: &mut Membrane) -> (r: usize)
    requires
        n != 0 && !s.null() && old(cx).rt.serves() ==> mapped(
            mem@,
            s.at(),
            memchr_len(old(cx).rt, n) as int,
        ),
    ensures
        ({
            let len = memchr_len(old(cx).rt, n) as int;
            let i = last_at(mem@, s.at(), len, low_byte(c));
            r == if n == 0 || s.null() || !old(cx).rt.serves() || i is None {
                0
            } else {
                s.addr + i->Some_0
            }
        }),
        final(cx).follows(*old(cx), memchr_events(old(cx).rt, s, n)),
{
    memrchr(mem, s, c, n, cx)
}

/// The address of the first byte at `s` or behind it that is `c`, which is known
/// to be there; null for a null pointer.
pub fn rawmemchr(mem: &Memory, s: usize, c: i32) -> (r: usize)
    requires
        s != 0 ==> exists|j: int| s <= j < mem@.len() && #[trigger] mem@[j] == low_byte(c),
    ensures
        r == if s == 0 {
            0
        } else {
            s + find(mem@, s as int, mem@.len() - s, is_byte(low_byte(c)))
        },
        s != 0 ==> r < mem@.len() && mem@[r as int] == low_byte(c),
{
    if s == 0 {
        return 0;
    }
    let needle: u8 = to_low_byte(c);
    let size: usize = mem.size();
    let ghost m = mem@;
    let ghost p = is_byte(needle);
    let splat: u64 = swar_splat(needle);
    let mut i: usize = s;
    loop
        invariant
            m == mem@,
            size == m.len(),
            s <= i <= size,
            needle == low_byte(c),
            p == is_byte(needle),
            exists|j: int| s <= j < m.len() && #[trigger] m[j] == needle,
            forall|k: int| 0 <= k < 8 ==> #[trigger] lane(splat, k) == needle,
            forall|j: int| s <= j < i ==> !p(#[trigger] m[j]),
        ensures
            i < size,
            m[i as int] == needle,
            forall|j: int| s <= j < i ==> !p(#[trigger] m[j]),
        decreases size - i,
    {
        proof {
            let j = choose|j: int| s <= j < m.len() && #[trigger] m[j] == needle;
            if j < i {
                assert(!p(m[j]));
            }
        }
        if wide_read_within_page(i) {
            let w: u64 = mem.word(i);
            if !swar_word_has_match(w, splat) {
                assert forall|j: int| s <= j < i + 8 implies !p(#[trigger] m[j]) by {
                    if j >= i {
                        assert(lane(w, j - i) == m[i + (j - i)]);
                        assert(lane(splat, j - i) == needle);
                    }
                }
                i += 8;
                continue;
            }
        }
        if mem.load(i) == needle {
            break;
        }
        i += 1;
    }
    proof {
        assert(is_first(m, s as int, size - s, p, i - s));
        lemma_find_is(m, s as int, size - s, p, i - s);
    }
    i
}

/// As [`rawmemchr`].
pub fn __rawmemchr(mem: &Memory, s: usize, c: i32) -> (r: usize)
    requires
        s != 0 ==> exists|j: int| s <= j < mem@.len() && #[trigger] mem@[j] == low_byte(c),
    ensures
        r == if s == 0 {
            0
        } else {
            s + find(mem@, s as int, mem@.len() - s, is_byte(low_byte(c)))
        },
        s != 0 ==> r < mem@.len() && mem@[r as int] == low_byte(c),
{
    rawmemchr(mem, s, c)
}

/// The offset at which a search for `c` in the string at `s` stops.
pub open spec fn locate(m: Seq<u8>, rt: Runtime, s: Ptr, c: i32) -> int {
    find(m, s.at(), extent(m, s.at(), rt.reach(s)), is_byte_or_nul(low_byte(c)))
}

/// The search stops at the byte that it is for.
pub open spec fn located(m: Seq<u8>, rt: Runtime, s: Ptr, c: i32) -> bool {
    locate(m, rt, s, c) < extent(m, s.at(), rt.reach(s)) && m[s.at() + locate(m, rt, s, c)]
        == low_byte(c)
}

/// The exchanges of a search in a string that stopped at `i`, or at the bound.
pub open spec fn locate_events(rt: Runtime, s: Ptr, i: usize, hit: bool) -> Seq<Event> {
    if rt.denies() {
        seq![
            ask_one(s, 0, false),
            rt.outcome_one(s, CheckStage::Arena),
            report(Cost::Flat(6), true),
        ]
    } else if hit {
        seq![
            ask_one(s, 0, false),
            truncation(i, i),
            rt.outcome_one(s, CheckStage::Bounds),
            report(Cost::Scaled(6, i), true),
        ]
    } else {
        seq![
            ask_one(s, 0, false),
            rt.outcome_one(s, CheckStage::Bounds),
            report(Cost::Scaled(6, (i + 1) as usize), false),
        ]
    }
}

/// The exchanges of `strchr` with the runtime.
pub open spec fn strchr_events(m: Seq<u8>, rt: Runtime, s: Ptr, c: i32) -> Seq<Event> {
    if rt.strict {
        seq![]
    } else if s.null() {
        seq![rt.outcome_one(s, CheckStage::Null)]
    } else {
        locate_events(
            rt,
            s,
            locate(m, rt, s, c) as usize,
            locate(m, rt, s, c) == extent(m, s.at(), rt.reach(s)),
        )
    }
}

/// Looks for `c` in the string at `s`: the address at which the search stopped,
/// and whether `c` stands there. `None` for a null pointer and for a denied call.
pub fn strchr_locate(mem: &Memory, s: Ptr, c: i32, cx: &mut Membrane) -> (r: Option<(usize, bool)>)
    requires
        !s.null() && old(cx).rt.serves() ==> readable(mem@, s.at(), old(cx).rt.reach(s)),
    ensures
        r is None == (s.null() || !old(cx).rt.serves()),
        r matches Some((a, found)) ==> a == s.addr + locate(mem@, old(cx).rt, s, c) && found
            == located(mem@, old(cx).rt, s, c),
        final(cx).follows(*old(cx), strchr_events(mem@, old(cx).rt, s, c)),
{
    let size: usize = mem.size();
    let target: u8 = to_low_byte(c);
    if cx.rt.strict {
        if s.is_null() {
            return None;
        }
        proof {
            lemma_find(mem@, s.at(), extent(mem@, s.at(), None), is_byte_or_nul(target));
        }
        let (i, found, _hit) = scan_c_string_for_byte(mem, s.addr, target, None);
        return Some((s.addr + i, found));
    }
    if s.is_null() {
        cx.outcome_one(s, CheckStage::Null);
        return None;
    }
    if !cx.ask_one(s, 0, false) {
        cx.outcome_one(s, CheckStage::Arena);
        cx.observe(Cost::Flat(6), true);
        return None;
    }
    let bound: Option<usize> = cx.bound(s);
    proof {
        lemma_find(mem@, s.at(), extent(mem@, s.at(), bound), is_byte_or_nul(target));
    }
    let (i, found, hit) = scan_c_string_for_byte(mem, s.addr, target, bound);
    let span: usize = if hit {
        i
    } else {
        i + 1
    };
    if hit {
        cx.record_truncation(i, i);
    }
    cx.outcome_one(s, CheckStage::Bounds);
    cx.observe(Cost::Scaled(6, span), hit);
    Some((s.addr + i, found))
}

/// The address of the first `c` in the string at `s`, the NUL counted as part of
/// it; null where there is none, for a null pointer and for a denied call.
pub fn strchr(mem: &Memory, s: Ptr, c: i32, cx: &mut Membrane) -> (r: usize)
    requires
        !s.null() && old(cx).rt.serves() ==> readable(mem@, s.at(), old(cx).rt.reach(s)),
    ensures
        r == if !s.null() && old(cx).rt.serves() && located(mem@, old(cx).rt, s, c) {
            s.addr + locate(mem@, old(cx).rt, s, c)
        } else {
            0
        },
        final(cx).follows(*old(cx), strchr_events(mem@, old(cx).rt, s, c)),
{
    match strchr_locate(mem, s, c, cx) {
        Some((a, found)) => if found {
            a
        } else {
            0
        },
        None => 0,
    }
}

/// As [`strchr`].
pub fn index(mem: &Memory, s: Ptr, c: i32, cx: &mut Membrane) -> (r: usize)
    requires
        !s.null() && old(cx).rt.serves() ==> readable(mem@, s.at(), old(cx).rt.reach(s)),
    ensures
        r == if !s.null() && old(cx).rt.serves() && located(mem@, old(cx).rt, s, c) {
            s.addr + locate(mem@, old(cx).rt, s, c)
        } else {
            0
        },
        final(cx).follows(*old(cx), strchr_events(mem@, old(cx).rt, s, c)),
{
    strchr(mem, s, c, cx)
}

/// The address of the first `c` in the string at `s`, or of its end where there
/// is none; `s` itself where the call is denied, null for a null pointer.
pub fn strchrnul(mem: &Memory, s: Ptr, c: i32, cx: &mut Membrane) -> (r: usize)
    requires
        !s.null() && old(cx).rt.serves() ==> readable(mem@, s.at(), old(cx).rt.reach(s)),
    ensures
        r == if !s.null() && old(cx).rt.serves() {
            s.addr + locate(mem@, old(cx).rt, s, c)
        } else {
            s.at()
        },
        final(cx).follows(
            *old(cx),
            if s.null() {
                seq![]
            } else {
                strchr_events(mem@, old(cx).rt, s, c)
            },
        ),
{
    if s.is_null() {
        return 0;
    }
    match strchr_locate(mem, s, c, cx) {
        Some((a, _found)) => a,
        None => s.addr,
    }
}

/// As [`strchrnul`].
pub fn __strchrnul(mem: &Memory, s: Ptr, c: i32, cx: &mut Membrane) -> (r: usize)
    requires
        !s.null() && old(cx).rt.serves() ==> readable(mem@, s.at(), old(cx).rt.reach(s)),
    ensures
        r == if !s.null() && old(cx).rt.serves() {
            s.addr + locate(mem@, old(cx).rt, s, c)
        } else {
            s.at()
        },
        final(cx).follows(
            *old(cx),
            if s.null() {
                seq![]
            } else {
                strchr_events(mem@, old(cx).rt, s, c)
            },
        ),
{
    strchrnul(mem, s, c, cx)
}

/// The offset of the last `c` in the string at `s`, the NUL counted as part of
/// it.
pub open spec fn last_in_string(m: Seq<u8>, rt: Runtime, s: Ptr, c: i32) -> Option<int> {
    last_at(
        m,
        s.at(),
        c_len(m, s.at(), rt.reach(s)) + if c_ended(m, s.at(), rt.reach(s)) {
            1int
        } else {
            0
        },
        low_byte(c),
    )
}

/// The exchanges of `strrchr` with the runtime.
pub open spec fn strrchr_events(m: Seq<u8>, rt: Runtime, s: Ptr) -> Seq<Event> {
    if s.null() {
        seq![rt.outcome_one(s, CheckStage::Null)]
    } else if rt.strict {
        seq![]
    } else {
        locate_events(
            rt,
            s,
            c_len(m, s.at(), rt.reach(s)) as usize,
            !c_ended(m, s.at(), rt.reach(s)),
        )
    }
}

/// The address of the last `c` in the string at `s`, the NUL counted as part of
/// it; null where there is none, for a null pointer and for a denied call.
pub fn strrchr(mem: &Memory, s: Ptr, c: i32, cx: &mut Membrane) -> (r: usize)
    requires
        !s.null() && old(cx).rt.serves() ==> readable(mem@, s.at(), old(cx).rt.reach(s)),
    ensures
        r == if !s.null() && old(cx).rt.serves() {
            match last_in_string(mem@, old(cx).rt, s, c) {
                Some(i) => s.addr + i,
                None => 0,
            }
        } else {
            0
        },
        final(cx).follows(*old(cx), strrchr_events(mem@, old(cx).rt, s)),
{
    let size: usize = mem.size();
    let target: u8 = to_low_byte(c);
    if s.is_null() {
        cx.outcome_one(s, CheckStage::Null);
        return 0;
    }
    proof {
        if cx.rt.serves() {
            let b = cx.rt.reach(s);
            lemma_c_len(mem@, s.at(), b);
            let n = c_len(mem@, s.at(), b) + if c_ended(mem@, s.at(), b) {
                1int
            } else {
                0
            };
            lemma_last_at(mem@, s.at(), n, target);
        }
    }
    if cx.rt.strict {
        let (last, _stop, _hit) = scan_c_string_last_byte(mem, s.addr, target, None);
        return match last {
            Some(i) => s.addr + i,
            None => 0,
        };
    }
    if !cx.ask_one(s, 0, false) {
        cx.outcome_one(s, CheckStage::Arena);
        cx.observe(Cost::Flat(6), true);
        return 0;
    }
    let bound: Option<usize> = cx.bound(s);
    let (last, stop, hit) = scan_c_string_last_byte(mem, s.addr, target, bound);
    let span: usize = if hit {
        stop
    } else {
        stop + 1
    };
    if hit {
        cx.record_truncation(stop, stop);
    }
    cx.outcome_one(s, CheckStage::Bounds);
    cx.observe(Cost::Scaled(6, span), hit);
    match last {
        Some(i) => s.addr + i,
        None => 0,
    }
}

/// As [`strrchr`].
pub fn rindex(mem: &Memory, s: Ptr, c: i32, cx: &mut Membrane) -> (r: usize)
    requires
        !s.null() && old(cx).rt.serves() ==> readable(mem@, s.at(), old(cx).rt.reach(s)),
    ensures
        r == if !s.null() && old(cx).rt.serves() {
            match last_in_string(mem@, old(cx).rt, s, c) {
                Some(i) => s.addr + i,
                None => 0,
            }
        } else {
            0
        },
        final(cx).follows(*old(cx), strrchr_events(mem@, old(cx).rt, s)),
{
    strrchr(mem, s, c, cx)
}

/// Looking for the NUL finds the end of the string, first and last.
pub proof fn law_nul_is_found_at_the_end(m: Seq<u8>, rt: Runtime, s: Ptr)
    requires
        readable(m, s.at(), rt.reach(s)),
        c_ended(m, s.at(), rt.reach(s)),
    ensures
        locate(m, rt, s, 0) == c_len(m, s.at(), rt.reach(s)),
        located(m, rt, s, 0),
        last_in_string(m, rt, s, 0) == Some(c_len(m, s.at(), rt.reach(s))),
{
    let b = rt.reach(s);
    let n = c_len(m, s.at(), b);
    lemma_c_len(m, s.at(), b);
    assert(is_first(m, s.at(), extent(m, s.at(), b), is_byte_or_nul(0), n));
    lemma_find_is(m, s.at(), extent(m, s.at(), b), is_byte_or_nul(0), n);
    lemma_last_at_is(m, s.at(), n + 1, 0, Some(n));
}

/// The low byte of an integer differs from it by a multiple of 256.
pub proof fn law_low_byte_is_congruent(c: i32)
    ensures
        (c - low_byte(c)) % 256 == 0,
        0 <= c < 256 ==> low_byte(c) == c,
{
}

/// A byte is found in a string at its first place, with the NUL at the end of
/// the string counted in: none in front of it is that byte, nor a NUL.
pub proof fn law_byte_is_found_at_its_first_place(
    m: Seq<u8>,
    rt: Runtime,
    s: Ptr,
    c: i32,
    i: int,
)
    requires
        readable(m, s.at(), rt.reach(s)),
        0 <= i <= c_len(m, s.at(), rt.reach(s)),
        forall|j: int|
            s.addr <= j < s.addr + i ==> #[trigger] m[j] != 0 && (m[j] - c) % 256 != 0,
    ensures
        i < extent(m, s.at(), rt.reach(s)) && (m[s.addr + i] - c) % 256 == 0 ==> located(
            m,
            rt,
            s,
            c,
        ) && locate(m, rt, s, c) == i,
        i == c_len(m, s.at(), rt.reach(s)) && (i == extent(m, s.at(), rt.reach(s)) || c % 256 != 0)
            ==> !located(m, rt, s, c),
{
    let b = rt.reach(s);
    let e = extent(m, s.at(), b);
    lemma_c_len(m, s.at(), b);
    lemma_find(m, s.at(), e, is_nul());
    let p = is_byte_or_nul(low_byte(c));
    assert forall|j: int| s.at() <= j < s.at() + i implies !p(#[trigger] m[j]) by {
        assert(m[j] != 0 && (m[j] - c) % 256 != 0);
    }
    if i < e && (m[s.addr + i] - c) % 256 == 0 {
        assert(m[s.addr + i] == low_byte(c));
        assert(is_first(m, s.at(), e, p, i));
        lemma_find_is(m, s.at(), e, p, i);
    }
    if i == c_len(m, s.at(), b) {
        assert(is_first(m, s.at(), e, p, i));
        lemma_find_is(m, s.at(), e, p, i);
    }
}

/// The last place of a byte in a string, with the NUL at its end counted in: the
/// byte stands there and nowhere behind.
pub proof fn law_last_byte_of_a_string(m: Seq<u8>, rt: Runtime, s: Ptr, c: i32)
    requires
        readable(m, s.at(), rt.reach(s)),
    ensures
        ({
            let n = c_len(m, s.at(), rt.reach(s));
            match last_in_string(m, rt, s, c) {
                Some(i) => {
                    &&& 0 <= i <= n
                    &&& i == n ==> c_ended(m, s.at(), rt.reach(s))
                    &&& (m[s.addr + i] - c) % 256 == 0
                    &&& forall|j: int|
                        s.addr + i < j < s.addr + n ==> (#[trigger] m[j] - c) % 256 != 0
                    &&& i < n && c_ended(m, s.at(), rt.reach(s)) ==> c % 256 != 0
                },
                None => {
                    &&& forall|j: int| s.addr <= j < s.addr + n ==> (#[trigger] m[j] - c) % 256 != 0
                    &&& c_ended(m, s.at(), rt.reach(s)) ==> c % 256 != 0
                },
            }
        }),
{
    let b = rt.reach(s);
    let n = c_len(m, s.at(), b);
    lemma_c_len(m, s.at(), b);
    lemma_find(m, s.at(), extent(m, s.at(), b), is_nul());
    let k = n + if c_ended(m, s.at(), b) {
        1int
    } else {
        0
    };
    law_last_place_of_a_byte(m, s.at(), k, low_byte(c));
    match last_in_string(m, rt, s, c) {
        Some(i) => {
            assert forall|j: int| s.addr + i < j < s.addr + n implies (#[trigger] m[j] - c) % 256
                != 0 by {
                assert(m[j] != low_byte(c));
            }
            if i < n && c_ended(m, s.at(), b) {
                assert(m[s.at() + n] != low_byte(c));
            }
        },
        None => {
            assert forall|j: int| s.addr <= j < s.addr + n implies (#[trigger] m[j] - c) % 256
                != 0 by {
                assert(m[j] != low_byte(c));
            }
            if c_ended(m, s.at(), b) {
                assert(m[s.at() + n] != low_byte(c));
            }
        },
    }
}

/// The length of a string goes by its allocation unless the runtime starts up, or
/// calls pass around the membrane without being strict.
pub proof fn law_length_bound(rt: Runtime, s: Ptr)
    ensures
        rt.bootstrap ==> strlen_bound(rt, s) is None,
        rt.strict && !rt.bootstrap ==> strlen_bound(rt, s) == s.remaining,
        !rt.strict && rt.raw() ==> strlen_bound(rt, s) is None,
        !rt.raw() ==> strlen_bound(rt, s) == s.remaining,
{
}

/// A bounded length looks at as many bytes as were asked for, and in a repaired
/// call at no more than the allocation holds.
pub proof fn law_bounded_length_limit(rt: Runtime, s: Ptr, n: usize)
    ensures
        rt.strict || s.remaining is None || !(rt.heals || rt.action is Repair) ==> strnlen_limit(
            rt,
            s,
            n,
        ) == n,
        !rt.strict && (rt.heals || rt.action is Repair) && s.remaining is Some ==> strnlen_limit(
            rt,
            s,
            n,
        ) == if s.remaining->Some_0 < n {
            s.remaining->Some_0
        } else {
            n
        },
        rt.strict ==> memchr_len(rt, n) == n,
        !rt.strict ==> memchr_len(rt, n) == rt.clamped(n),
        !(rt.clamp is ClampSize) || !(rt.heals || rt.action is Repair) ==> memchr_len(rt, n) == n,
{
}

/// Calls that are strict leave no trace, and neither do those for a length that
/// passes around the membrane. A null string leaves the check at its stage.
pub proof fn law_untraced_searches(m: Seq<u8>, rt: Runtime, s: Ptr, c: i32, n: usize)
    ensures
        rt.strict ==> strlen_events(m, rt, s).len() == 0 && strnlen_events(m, rt, s, n).len() == 0
            && memchr_events(rt, s, n).len() == 0 && strchr_events(m, rt, s, c).len() == 0,
        rt.strict && s.addr != 0 ==> strrchr_events(m, rt, s).len() == 0,
        s.addr == 0 || rt.raw() || (!rt.heals && s.remaining is None) ==> strlen_events(
            m,
            rt,
            s,
        ).len() == 0,
        n == 0 ==> strnlen_events(m, rt, s, n).len() == 0,
        n == 0 && s.addr != 0 ==> memchr_events(rt, s, n).len() == 0,
        !rt.strict && s.addr == 0 ==> {
            &&& strchr_events(m, rt, s, c).len() == 1
            &&& exit_of(strchr_events(m, rt, s, c)) == Some(
                stage_place(rt.order@, CheckStage::Null),
            )
            &&& memchr_events(rt, s, n).len() == 1
            &&& exit_of(memchr_events(rt, s, n)) == Some(stage_place(rt.order@, CheckStage::Null))
        },
{
}

/// A length that is traced asks the policy once, to read at the string. A denied
/// call is adverse and leaves at the arena stage; one that is served is adverse,
/// and a repair recorded, exactly where no NUL ends the string in its allocation.
pub proof fn law_trace_of_a_length(m: Seq<u8>, rt: Runtime, s: Ptr)
    requires
        s.addr != 0,
        !rt.strict,
        !rt.raw(),
        rt.heals || s.remaining is Some,
    ensures
        ({
            let ev = strlen_events(m, rt, s);
            let cut = !c_ended(m, s.at(), s.remaining);
            &&& asks(
                ev,
                Query { addr: s.addr, len: 0, write: false, untracked: s.remaining is None },
            )
            &&& rt.action is Deny ==> verdict(ev) == Some(true) && !healed(ev) && exit_of(ev)
                == Some(stage_place(rt.order@, CheckStage::Arena))
            &&& !(rt.action is Deny) ==> verdict(ev) == Some(cut) && healed(ev) == cut && exit_of(
                ev,
            ) == Some(stage_place(rt.order@, CheckStage::Bounds))
        }),
{
}

/// A bounded length that is traced asks the policy once, to read `n` bytes. It is
/// adverse where it is denied, or cut to fewer bytes, which is recorded as a
/// repair.
pub proof fn law_trace_of_a_bounded_length(m: Seq<u8>, rt: Runtime, s: Ptr, n: usize)
    requires
        s.addr != 0,
        !rt.strict,
        n > 0,
    ensures
        ({
            let ev = strnlen_events(m, rt, s, n);
            let cut = (rt.heals || rt.action is Repair) && s.remaining is Some
                && s.remaining->Some_0 < n;
            &&& asks(
                ev,
                Query { addr: s.addr, len: n, write: false, untracked: s.remaining is None },
            )
            &&& rt.action is Deny ==> verdict(ev) == Some(true) && !healed(ev) && exit_of(ev)
                == Some(stage_place(rt.order@, CheckStage::Arena))
            &&& !(rt.action is Deny) ==> verdict(ev) == Some(cut) && healed(ev) == cut && exit_of(
                ev,
            ) == Some(stage_place(rt.order@, CheckStage::Bounds))
        }),
{
}

/// A search for a byte that is traced asks the policy once, to read at the string.
/// It is adverse where it is denied, or where it came to the end of the allocation,
/// which is recorded as a repair.
pub proof fn law_trace_of_a_search(m: Seq<u8>, rt: Runtime, s: Ptr, c: i32)
    requires
        s.addr != 0,
        !rt.strict,
    ensures
        ({
            let ev = strchr_events(m, rt, s, c);
            let last = strrchr_events(m, rt, s);
            let q = Query { addr: s.addr, len: 0, write: false, untracked: s.remaining is None };
            let cut = locate(m, rt, s, c) == extent(m, s.at(), rt.reach(s));
            &&& asks(ev, q) && asks(last, q)
            &&& rt.action is Deny ==> verdict(ev) == Some(true) && verdict(last) == Some(true)
                && !healed(ev) && !healed(last)
            &&& !(rt.action is Deny) ==> verdict(ev) == Some(cut) && healed(ev) == cut
            &&& !(rt.action is Deny) ==> verdict(last) == Some(!c_ended(m, s.at(), rt.reach(s)))
                && healed(last) == !c_ended(m, s.at(), rt.reach(s))
        }),
{
}

/// A search in a block that is traced asks the policy once, to read `n` bytes. It
/// is adverse where it is denied, where the healing policy clamps the size, or
/// where nothing is left of it.
pub proof fn law_trace_of_a_block_search(rt: Runtime, s: Ptr, n: usize)
    requires
        s.addr != 0,
        !rt.strict,
        n > 0,
    ensures
        ({
            let ev = memchr_events(rt, s, n);
            &&& asks(
                ev,
                Query { addr: s.addr, len: n, write: false, untracked: s.remaining is None },
            )
            &&& verdict(ev) == Some(
                rt.action is Deny || (rt.clamp is ClampSize && (rt.heals || rt.action is Repair)),
            )
        }),
{
}

/// A byte in a block is found at its first place.
pub proof fn law_byte_in_a_block(m: Seq<u8>, a: int, n: int, c: u8, i: int)
    requires
        0 <= i <= n,
        forall|j: int| a <= j < a + i ==> #[trigger] m[j] != c,
        i < n ==> m[a + i] == c,
    ensures
        find(m, a, n, is_byte(c)) == i,
{
    assert(is_first(m, a, n, is_byte(c), i));
    lemma_find_is(m, a, n, is_byte(c), i);
}

} // verus!
