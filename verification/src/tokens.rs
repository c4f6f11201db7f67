//! Splitting a string into tokens: `strtok`, `strtok_r` and `strsep`.
use vstd::prelude::*;
use crate::membrane::{asks, verdict, CheckStage, Cost, Event, Membrane, Query, Runtime};
use crate::memory::{block, mapped, put, sat_sum, Memory, Ptr};
use crate::scan::{
    c_bytes,
    c_ended,
    c_len,
    find,
    has_nul,
    is_first,
    is_nul,
    is_stop,
    lemma_c_len,
    lemma_c_len_is,
    lemma_find,
    lemma_find_is,
    readable,
    region,
    scan_c_string,
};
use crate::span::{lemma_stop_of, set_of, span_core, span_stop, stop_of, terminated};

verus! {

/// Where the first token among the `n` bytes at `a` starts, over the delimiters
/// `d`.
pub open spec fn token_start(m: Seq<u8>, a: int, n: int, d: Seq<u8>) -> int {
    find(m, a, n, is_stop(d, false))
}

/// There is a token.
pub open spec fn has_token(m: Seq<u8>, a: int, n: int, d: Seq<u8>) -> bool {
    token_start(m, a, n, d) < n && m[a + token_start(m, a, n, d)] != 0
}

/// Where the first token ends.
pub open spec fn token_end(m: Seq<u8>, a: int, n: int, d: Seq<u8>) -> int {
    let st = token_start(m, a, n, d);
    st + find(m, a + st, n - st, is_stop(d, true))
}

/// The first token ends at a delimiter.
pub open spec fn token_cut(m: Seq<u8>, a: int, n: int, d: Seq<u8>) -> bool {
    token_end(m, a, n, d) < n && m[a + token_end(m, a, n, d)] != 0
}

/// The memory after the first token was taken: its delimiter became a NUL.
pub open spec fn after_token(m: Seq<u8>, a: int, n: int, d: Seq<u8>) -> Seq<u8> {
    if token_cut(m, a, n, d) {
        m.update(a + token_end(m, a, n, d), 0)
    } else {
        m
    }
}

/// Taking the first token of the `n` bytes at `a` gives the memory `m2`, the
/// token `tok` and the place `save` to go on from; both are null where there is
/// no token.
pub open spec fn tokenises(
    m: Seq<u8>,
    a: int,
    n: int,
    d: Seq<u8>,
    m2: Seq<u8>,
    tok: usize,
    save: usize,
) -> bool {
    if has_token(m, a, n, d) {
        &&& tok == a + token_start(m, a, n, d)
        &&& save == a + token_end(m, a, n, d) + if token_cut(m, a, n, d) {
            1int
        } else {
            0
        }
        &&& m2 == after_token(m, a, n, d)
    } else {
        tok == 0 && save == 0 && m2 == m
    }
}

/// The string that a call goes on with.
pub open spec fn resumed(s: Ptr, saved: usize) -> usize {
    if s.null() {
        saved
    } else {
        s.addr
    }
}

/// What is known to remain of it.
pub open spec fn resumed_remaining(s: Ptr, saved_remaining: Option<usize>) -> Option<usize> {
    if s.null() {
        saved_remaining
    } else {
        s.remaining
    }
}

/// The bound under which a tokeniser reads the string.
pub open spec fn text_bound(rt: Runtime, remaining: Option<usize>) -> Option<usize> {
    if !rt.strict && rt.repairs() {
        remaining
    } else {
        None
    }
}

/// The bound under which a tokeniser reads the delimiters.
pub open spec fn delim_bound(rt: Runtime, delim: Ptr) -> Option<usize> {
    if rt.strict {
        None
    } else {
        delim.remaining
    }
}

/// The call is served: it is not denied.
pub open spec fn served(rt: Runtime) -> bool {
    rt.strict || !rt.denies()
}

/// Facts of the first token.
pub proof fn lemma_token(m: Seq<u8>, a: int, n: int, d: Seq<u8>)
    requires
        n >= 0,
    ensures
        0 <= token_start(m, a, n, d) <= n,
        forall|j: int|
            a <= j < a + token_start(m, a, n, d) ==> #[trigger] m[j] != 0 && d.contains(m[j]),
        has_token(m, a, n, d) ==> !d.contains(m[a + token_start(m, a, n, d)]) && token_start(
            m,
            a,
            n,
            d,
        ) < token_end(m, a, n, d) <= n,
        has_token(m, a, n, d) ==> forall|j: int|
            a + token_start(m, a, n, d) <= j < a + token_end(m, a, n, d) ==> #[trigger] m[j] != 0
                && !d.contains(m[j]),
        has_token(m, a, n, d) && token_cut(m, a, n, d) ==> d.contains(
            m[a + token_end(m, a, n, d)],
        ),
{
    let p = is_stop(d, false);
    let q = is_stop(d, true);
    lemma_find(m, a, n, p);
    let st = token_start(m, a, n, d);
    assert forall|j: int| a <= j < a + st implies #[trigger] m[j] != 0 && d.contains(m[j]) by {
        assert(!p(m[j]));
    }
    if has_token(m, a, n, d) {
        lemma_find(m, a + st, n - st, q);
        assert forall|j: int| a + st <= j < a + token_end(m, a, n, d) implies #[trigger] m[j] != 0
            && !d.contains(m[j]) by {
            assert(!q(m[j]));
        }
    }
}

/// Over a terminated string the stop inside its region is the unbounded one.
pub(crate) proof fn lemma_region_stop(m: Seq<u8>, a: usize, st: int, d: Seq<u8>, stop_in_set: bool)
    requires
        terminated(m, a),
        0 <= st <= c_len(m, a as int, None),
        a + st <= usize::MAX,
    ensures
        terminated(m, (a + st) as usize),
        find(m, a + st, region(m, a as int, None) - st, is_stop(d, stop_in_set)) == stop_of(
            m,
            (a + st) as usize,
            d,
            stop_in_set,
        ),
{
    lemma_c_len(m, a as int, None);
    let e = c_len(m, a as int, None);
    let b = (a + st) as usize;
    assert(m[a + e] == 0);
    lemma_stop_of(m, b, d, stop_in_set);
    let i = stop_of(m, b, d, stop_in_set);
    if b + i > a + e {
        assert(m[a + e] != 0);
    }
    assert(is_first(m, b as int, region(m, a as int, None) - st, is_stop(d, stop_in_set), i));
    lemma_find_is(m, b as int, region(m, a as int, None) - st, is_stop(d, stop_in_set), i);
}

/// Takes the first token of the terminated string at `a`.
fn take_token(mem: &mut Memory, a: usize, delim: usize, delim_len: usize) -> (r: (usize, usize))
    requires
        a != 0,
        terminated(old(mem)@, a),
        terminated(old(mem)@, delim),
        delim_len == set_of(old(mem)@, delim).len(),
    ensures
        tokenises(
            old(mem)@,
            a as int,
            region(old(mem)@, a as int, None),
            set_of(old(mem)@, delim),
            final(mem)@,
            r.0,
            r.1,
        ),
{
    let ghost m = mem@;
    let ghost d = set_of(m, delim);
    let ghost n = region(m, a as int, None);
    let size: usize = mem.size();
    proof {
        lemma_c_len(m, a as int, None);
        lemma_stop_of(m, a, d, false);
        lemma_region_stop(m, a, 0, d, false);
    }
    let start: usize = span_stop(mem, a, delim, delim_len, false);
    proof {
        lemma_region_stop(m, a, start as int, d, true);
        lemma_stop_of(m, (a + start) as usize, d, true);
    }
    if mem.load(a + start) == 0 {
        return (0, 0);
    }
    let tok_len: usize = span_stop(mem, a + start, delim, delim_len, true);
    let end: usize = start + tok_len;
    if mem.load(a + end) != 0 {
        mem.store(a + end, 0);
        (a + start, a + end + 1)
    } else {
        (a + start, a + end)
    }
}

/// Takes the first token of the `n` bytes at `a`; the place to go on from
/// leaves out a delimiter at the very end where `hold_end` is set.
fn take_token_within(
    mem: &mut Memory,
    a: usize,
    n: usize,
    delim: usize,
    delim_len: usize,
    hold_end: bool,
) -> (r: Option<(usize, usize)>)
    requires
        a + n <= old(mem)@.len(),
        delim + delim_len <= old(mem)@.len(),
    ensures
        ({
            let m = old(mem)@;
            let d = block(m, delim as int, delim_len as int);
            let end = token_end(m, a as int, n as int, d);
            match r {
                Some((start, next)) => has_token(m, a as int, n as int, d) && start == token_start(
                    m,
                    a as int,
                    n as int,
                    d,
                ) && next == (if hold_end {
                    strtok_next(m, a as int, n as int, d)
                } else {
                    end + if token_cut(m, a as int, n as int, d) {
                        1int
                    } else {
                        0
                    }
                }) && final(mem)@ == after_token(m, a as int, n as int, d),
                None => !has_token(m, a as int, n as int, d) && final(mem)@ == m,
            }
        }),
        r matches Some((start, next)) ==> start <= next <= n,
{
    let ghost m = mem@;
    let ghost d = block(m, delim as int, delim_len as int);
    let size: usize = mem.size();
    proof {
        lemma_token(m, a as int, n as int, d);
    }
    let start: usize = span_core(mem, a, n, delim, delim_len, false);
    if start == n || mem.load(a + start) == 0 {
        return None;
    }
    let tok_len: usize = span_core(mem, a + start, n - start, delim, delim_len, true);
    let end: usize = start + tok_len;
    if end < n && mem.load(a + end) != 0 {
        mem.store(a + end, 0);
        let next: usize = if hold_end && end + 1 == n {
            end
        } else {
            end + 1
        };
        Some((start, next))
    } else {
        Some((start, end))
    }
}

/// What `strtok_r` asks of the policy.
pub open spec fn strtok_r_query(
    s: Ptr,
    delim: Ptr,
    saved: usize,
    saved_remaining: Option<usize>,
) -> Query {
    Query {
        addr: resumed(s, saved),
        len: 0,
        write: true,
        untracked: resumed_remaining(s, saved_remaining) is None && delim.remaining is None,
    }
}

/// The exchanges of `strtok_r` with the runtime.
pub open spec fn strtok_r_events(
    m: Seq<u8>,
    rt: Runtime,
    s: Ptr,
    delim: Ptr,
    save: Option<usize>,
    saved_remaining: Option<usize>,
) -> Seq<Event> {
    if rt.strict {
        seq![]
    } else if delim.null() || save is None {
        seq![rt.outcome_two(s, delim, CheckStage::Null)]
    } else {
        let ask = Event::Decide(strtok_r_query(s, delim, save->Some_0, saved_remaining));
        let cur = resumed(s, save->Some_0) as int;
        let bound = text_bound(rt, resumed_remaining(s, saved_remaining));
        let d = c_bytes(m, delim.at(), delim.remaining);
        if rt.denies() {
            seq![
                ask,
                rt.outcome_two(s, delim, CheckStage::Arena),
                Event::Observe { cost: Cost::Flat(8), adverse: true },
            ]
        } else if cur == 0 {
            seq![
                ask,
                Event::Observe { cost: Cost::Scaled(8, 0), adverse: false },
                rt.outcome_two(s, delim, CheckStage::Null),
            ]
        } else {
            let scanned = c_len(m, cur, bound) as usize;
            let n = region(m, cur, bound);
            let ended = c_ended(m, delim.at(), delim.remaining);
            let work = if !ended {
                sat_sum(scanned, d.len() as usize)
            } else if has_token(m, cur, n, d) {
                (token_end(m, cur, n, d) + if token_cut(m, cur, n, d) {
                    1int
                } else {
                    0
                }) as usize
            } else {
                scanned
            };
            seq![
                ask,
                Event::Observe { cost: Cost::Scaled(8, work), adverse: !ended },
                rt.outcome_two(s, delim, CheckStage::Bounds),
            ]
        }
    }
}

/// Takes the next token of a string over the delimiters `delim`.
///
/// The string is `s`, or for a null `s` the one that `save` holds; `save` is
/// `None` where the caller gave no place to keep it. The token's delimiter is
/// overwritten by a NUL, and `save` is set to the byte behind it, or to null
/// where no token is left. Returns the token's address, or null.
pub fn strtok_r(
    mem: &mut Memory,
    s: Ptr,
    delim: Ptr,
    save: &mut Option<usize>,
    saved_remaining: Option<usize>,
    cx: &mut Membrane,
) -> (r: usize)
    requires
        !delim.null() && *old(save) is Some && served(old(cx).rt) && resumed(s, old(save)->Some_0)
            != 0 ==> readable(
            old(mem)@,
            resumed(s, old(save)->Some_0) as int,
            text_bound(old(cx).rt, resumed_remaining(s, saved_remaining)),
        ) && readable(old(mem)@, delim.at(), delim_bound(old(cx).rt, delim)),
    ensures
        delim.null() || *old(save) is None || !served(old(cx).rt) ==> r == 0 && final(mem)@
            == old(mem)@ && *final(save) == *old(save),
        !delim.null() && *old(save) is Some && served(old(cx).rt) ==> *final(save) is Some && {
            let m = old(mem)@;
            let cur = resumed(s, old(save)->Some_0);
            let bound = text_bound(old(cx).rt, resumed_remaining(s, saved_remaining));
            let db = delim_bound(old(cx).rt, delim);
            if cur == 0 || !c_ended(m, delim.at(), db) {
                r == 0 && *final(save) == Some(0usize) && final(mem)@ == m
            } else {
                tokenises(
                    m,
                    cur as int,
                    region(m, cur as int, bound),
                    c_bytes(m, delim.at(), db),
                    final(mem)@,
                    r,
                    final(save)->Some_0,
                )
            }
        },
        final(cx).follows(
            *old(cx),
            strtok_r_events(old(mem)@, old(cx).rt, s, delim, *old(save), saved_remaining),
        ),
{
    let size: usize = mem.size();
    let kept: Option<usize> = *save;
    if cx.rt.strict {
        if delim.is_null() {
            return 0;
        }
        let saved: usize = match kept {
            Some(v) => v,
            None => {
                return 0;
            },
        };
        let current: usize = if s.is_null() {
            saved
        } else {
            s.addr
        };
        if current == 0 {
            *save = Some(0);
            return 0;
        }
        let (delim_len, delim_terminated) = scan_c_string(mem, delim.addr, None);
        proof {
            lemma_c_len(mem@, delim.at(), None);
            lemma_c_len(mem@, current as int, None);
        }
        let (tok, next) = take_token(mem, current, delim.addr, delim_len);
        *save = Some(next);
        return tok;
    }
    match kept {
        Some(saved) => if delim.is_null() {
            cx.outcome_two(s, delim, CheckStage::Null);
            0
        } else {
            let (tok, next) = strtok_r_validating(mem, s, delim, saved, saved_remaining, cx);
            *save = Some(next);
            tok
        },
        None => {
            cx.outcome_two(s, delim, CheckStage::Null);
            0
        },
    }
}

/// As [`strtok_r`].
pub fn __strtok_r(
    mem: &mut Memory,
    s: Ptr,
    delim: Ptr,
    save: &mut Option<usize>,
    saved_remaining: Option<usize>,
    cx: &mut Membrane,
) -> (r: usize)
    requires
        !delim.null() && *old(save) is Some && served(old(cx).rt) && resumed(s, old(save)->Some_0)
            != 0 ==> readable(
            old(mem)@,
            resumed(s, old(save)->Some_0) as int,
            text_bound(old(cx).rt, resumed_remaining(s, saved_remaining)),
        ) && readable(old(mem)@, delim.at(), delim_bound(old(cx).rt, delim)),
    ensures
        delim.null() || *old(save) is None || !served(old(cx).rt) ==> r == 0 && final(mem)@
            == old(mem)@ && *final(save) == *old(save),
        !delim.null() && *old(save) is Some && served(old(cx).rt) ==> *final(save) is Some && {
            let m = old(mem)@;
            let cur = resumed(s, old(save)->Some_0);
            let bound = text_bound(old(cx).rt, resumed_remaining(s, saved_remaining));
            let db = delim_bound(old(cx).rt, delim);
            if cur == 0 || !c_ended(m, delim.at(), db) {
                r == 0 && *final(save) == Some(0usize) && final(mem)@ == m
            } else {
                tokenises(
                    m,
                    cur as int,
                    region(m, cur as int, bound),
                    c_bytes(m, delim.at(), db),
                    final(mem)@,
                    r,
                    final(save)->Some_0,
                )
            }
        },
        final(cx).follows(
            *old(cx),
            strtok_r_events(old(mem)@, old(cx).rt, s, delim, *old(save), saved_remaining),
        ),
{
    strtok_r(mem, s, delim, save, saved_remaining, cx)
}

/// The validating part of [`strtok_r`]: the token, and the place to go on from.
#[verifier::rlimit(30)]
fn strtok_r_validating(
    mem: &mut Memory,
    s: Ptr,
    delim: Ptr,
    saved: usize,
    saved_remaining: Option<usize>,
    cx: &mut Membrane,
) -> (r: (usize, usize))
    requires
        !old(cx).rt.strict,
        !delim.null(),
        served(old(cx).rt) && resumed(s, saved) != 0 ==> readable(
            old(mem)@,
            resumed(s, saved) as int,
            text_bound(old(cx).rt, resumed_remaining(s, saved_remaining)),
        ) && readable(old(mem)@, delim.at(), delim.remaining),
    ensures
        !served(old(cx).rt) ==> r == (0usize, saved) && final(mem)@ == old(mem)@,
        served(old(cx).rt) ==> {
            let m = old(mem)@;
            let cur = resumed(s, saved);
            let bound = text_bound(old(cx).rt, resumed_remaining(s, saved_remaining));
            if cur == 0 || !c_ended(m, delim.at(), delim.remaining) {
                r == (0usize, 0usize) && final(mem)@ == m
            } else {
                tokenises(
                    m,
                    cur as int,
                    region(m, cur as int, bound),
                    c_bytes(m, delim.at(), delim.remaining),
                    final(mem)@,
                    r.0,
                    r.1,
                )
            }
        },
        final(cx).follows(
            *old(cx),
            strtok_r_events(old(mem)@, old(cx).rt, s, delim, Some(saved), saved_remaining),
        ),
{
    let size: usize = mem.size();
    let current: usize = if s.is_null() {
        saved
    } else {
        s.addr
    };
    let remaining: Option<usize> = if s.is_null() {
        saved_remaining
    } else {
        s.remaining
    };
    let query = Query {
        addr: current,
        len: 0,
        write: true,
        untracked: remaining.is_none() && delim.remaining.is_none(),
    };
    if !cx.decide(query) {
        cx.outcome_two(s, delim, CheckStage::Arena);
        cx.observe(Cost::Flat(8), true);
        return (0, saved);
    }
    if current == 0 {
        cx.observe(Cost::Scaled(8, 0), false);
        cx.outcome_two(s, delim, CheckStage::Null);
        return (0, 0);
    }
    let bound: Option<usize> = if cx.repairs() {
        remaining
    } else {
        None
    };
    let (scan_limit, ended) = scan_c_string(mem, current, bound);
    proof {
        lemma_c_len(mem@, current as int, bound);
        lemma_c_len(mem@, delim.at(), delim.remaining);
    }
    let n: usize = if ended {
        scan_limit + 1
    } else {
        scan_limit
    };
    let (delim_len, delim_terminated) = scan_c_string(mem, delim.addr, delim.remaining);
    if !delim_terminated {
        cx.observe(Cost::Scaled(8, scan_limit.saturating_add(delim_len)), true);
        cx.outcome_two(s, delim, CheckStage::Bounds);
        return (0, 0);
    }
    match take_token_within(mem, current, n, delim.addr, delim_len, false) {
        Some((start, next)) => {
            cx.observe(Cost::Scaled(8, next), false);
            cx.outcome_two(s, delim, CheckStage::Bounds);
            (current + start, current + next)
        },
        None => {
            cx.observe(Cost::Scaled(8, scan_limit), false);
            cx.outcome_two(s, delim, CheckStage::Bounds);
            (0, 0)
        },
    }
}

/// The exchanges of `strtok` with the runtime.
pub open spec fn strtok_events(
    m: Seq<u8>,
    rt: Runtime,
    s: Ptr,
    delim: Ptr,
    saved: usize,
    saved_remaining: Option<usize>,
) -> Seq<Event> {
    if rt.strict {
        seq![]
    } else if delim.null() {
        seq![rt.outcome_two(s, delim, CheckStage::Null)]
    } else {
        let ask = Event::Decide(
            Query {
                addr: s.addr,
                len: 0,
                write: true,
                untracked: s.remaining is None && delim.remaining is None,
            },
        );
        let cur = resumed(s, saved) as int;
        let bound = text_bound(rt, resumed_remaining(s, saved_remaining));
        let d = c_bytes(m, delim.at(), delim.remaining);
        let n = region(m, cur, bound);
        let scanned = c_len(m, cur, bound) as usize;
        let ended = c_ended(m, delim.at(), delim.remaining);
        if rt.denies() {
            seq![
                ask,
                rt.outcome_two(s, delim, CheckStage::Arena),
                Event::Observe { cost: Cost::Flat(8), adverse: true },
            ]
        } else if cur == 0 {
            seq![
                ask,
                Event::Observe { cost: Cost::Scaled(8, 0), adverse: false },
                rt.outcome_two(s, delim, CheckStage::Bounds),
            ]
        } else {
            let work = if !ended {
                sat_sum(scanned, d.len() as usize)
            } else if has_token(m, cur, n, d) {
                strtok_next(m, cur, n, d) as usize
            } else {
                scanned
            };
            seq![
                ask,
                Event::Observe { cost: Cost::Scaled(8, work), adverse: !ended },
                rt.outcome_two(s, delim, CheckStage::Bounds),
            ]
        }
    }
}

/// Where `strtok` goes on: behind the delimiter, unless that was the last byte
/// looked at.
pub open spec fn strtok_next(m: Seq<u8>, a: int, n: int, d: Seq<u8>) -> int {
    token_end(m, a, n, d) + if token_cut(m, a, n, d) && token_end(m, a, n, d) + 1 < n {
        1int
    } else {
        0
    }
}

/// Takes the next token of a string over the delimiters `delim`, keeping the
/// place to go on from in `saved`.
pub fn strtok(
    mem: &mut Memory,
    s: Ptr,
    delim: Ptr,
    saved: &mut usize,
    saved_remaining: Option<usize>,
    cx: &mut Membrane,
) -> (r: usize)
    requires
        !delim.null() && served(old(cx).rt) && resumed(s, *old(saved)) != 0 ==> readable(
            old(mem)@,
            resumed(s, *old(saved)) as int,
            text_bound(old(cx).rt, resumed_remaining(s, saved_remaining)),
        ) && readable(old(mem)@, delim.at(), delim_bound(old(cx).rt, delim)),
    ensures
        delim.null() || !served(old(cx).rt) ==> r == 0 && final(mem)@ == old(mem)@ && *final(saved)
            == *old(saved),
        !delim.null() && served(old(cx).rt) ==> {
            let m = old(mem)@;
            let cur = resumed(s, *old(saved));
            let bound = text_bound(old(cx).rt, resumed_remaining(s, saved_remaining));
            let db = delim_bound(old(cx).rt, delim);
            let n = region(m, cur as int, bound);
            let d = c_bytes(m, delim.at(), db);
            if cur == 0 || !c_ended(m, delim.at(), db) || !has_token(m, cur as int, n, d) {
                r == 0 && *final(saved) == 0 && final(mem)@ == m
            } else {
                &&& r == cur + token_start(m, cur as int, n, d)
                &&& *final(saved) == cur + strtok_next(m, cur as int, n, d)
                &&& final(mem)@ == after_token(m, cur as int, n, d)
            }
        },
        final(cx).follows(
            *old(cx),
            strtok_events(old(mem)@, old(cx).rt, s, delim, *old(saved), saved_remaining),
        ),
{
    let size: usize = mem.size();
    let kept: usize = *saved;
    if delim.is_null() {
        if !cx.rt.strict {
            cx.outcome_two(s, delim, CheckStage::Null);
        }
        return 0;
    }
    if cx.rt.strict {
        let current: usize = if s.is_null() {
            kept
        } else {
            s.addr
        };
        if current == 0 {
            *saved = 0;
            return 0;
        }
        let (delim_len, delim_terminated) = scan_c_string(mem, delim.addr, None);
        proof {
            lemma_c_len(mem@, delim.at(), None);
            lemma_c_len(mem@, current as int, None);
            let n = region(mem@, current as int, None);
            let d = c_bytes(mem@, delim.at(), None);
            lemma_token(mem@, current as int, n, d);
            assert(mem@[current + n - 1] == 0);
        }
        let (tok, next) = take_token(mem, current, delim.addr, delim_len);
        *saved = next;
        return tok;
    }
    let (tok, next) = strtok_validating(mem, s, delim, kept, saved_remaining, cx);
    *saved = next;
    tok
}

/// The validating part of [`strtok`]: the token, and the place to go on from.
#[verifier::rlimit(30)]
fn strtok_validating(
    mem: &mut Memory,
    s: Ptr,
    delim: Ptr,
    saved: usize,
    saved_remaining: Option<usize>,
    cx: &mut Membrane,
) -> (r: (usize, usize))
    requires
        !old(cx).rt.strict,
        !delim.null(),
        served(old(cx).rt) && resumed(s, saved) != 0 ==> readable(
            old(mem)@,
            resumed(s, saved) as int,
            text_bound(old(cx).rt, resumed_remaining(s, saved_remaining)),
        ) && readable(old(mem)@, delim.at(), delim.remaining),
    ensures
        !served(old(cx).rt) ==> r == (0usize, saved) && final(mem)@ == old(mem)@,
        served(old(cx).rt) ==> {
            let m = old(mem)@;
            let cur = resumed(s, saved);
            let bound = text_bound(old(cx).rt, resumed_remaining(s, saved_remaining));
            let n = region(m, cur as int, bound);
            let d = c_bytes(m, delim.at(), delim.remaining);
            if cur == 0 || !c_ended(m, delim.at(), delim.remaining) || !has_token(
                m,
                cur as int,
                n,
                d,
            ) {
                r == (0usize, 0usize) && final(mem)@ == m
            } else {
                &&& r.0 == cur + token_start(m, cur as int, n, d)
                &&& r.1 == cur + strtok_next(m, cur as int, n, d)
                &&& final(mem)@ == after_token(m, cur as int, n, d)
            }
        },
        final(cx).follows(
            *old(cx),
            strtok_events(old(mem)@, old(cx).rt, s, delim, saved, saved_remaining),
        ),
{
    let size: usize = mem.size();
    let current: usize = if s.is_null() {
        saved
    } else {
        s.addr
    };
    let query = Query {
        addr: s.addr,
        len: 0,
        write: true,
        untracked: s.remaining.is_none() && delim.remaining.is_none(),
    };
    if !cx.decide(query) {
        cx.outcome_two(s, delim, CheckStage::Arena);
        cx.observe(Cost::Flat(8), true);
        return (0, saved);
    }
    if current == 0 {
        cx.observe(Cost::Scaled(8, 0), false);
        cx.outcome_two(s, delim, CheckStage::Bounds);
        return (0, 0);
    }
    let remaining: Option<usize> = if s.is_null() {
        saved_remaining
    } else {
        s.remaining
    };
    let bound: Option<usize> = if cx.repairs() {
        remaining
    } else {
        None
    };
    let (scan_limit, ended) = scan_c_string(mem, current, bound);
    proof {
        lemma_c_len(mem@, current as int, bound);
        lemma_c_len(mem@, delim.at(), delim.remaining);
    }
    let n: usize = if ended {
        scan_limit + 1
    } else {
        scan_limit
    };
    let (delim_len, delim_terminated) = scan_c_string(mem, delim.addr, delim.remaining);
    if !delim_terminated {
        cx.observe(Cost::Scaled(8, scan_limit.saturating_add(delim_len)), true);
        cx.outcome_two(s, delim, CheckStage::Bounds);
        return (0, 0);
    }
    match take_token_within(mem, current, n, delim.addr, delim_len, true) {
        Some((start, next)) => {
            cx.observe(Cost::Scaled(8, next), false);
            cx.outcome_two(s, delim, CheckStage::Bounds);
            (current + start, current + next)
        },
        None => {
            cx.observe(Cost::Scaled(8, scan_limit), false);
            cx.outcome_two(s, delim, CheckStage::Bounds);
            (0, 0)
        },
    }
}

/// The first delimiter among the `n` bytes at `a`, or the end.
pub open spec fn field_end(m: Seq<u8>, a: int, n: int, d: Seq<u8>) -> int {
    find(m, a, n, is_stop(d, true))
}

/// The field at `a` ends at a delimiter.
pub open spec fn field_cut(m: Seq<u8>, a: int, n: int, d: Seq<u8>) -> bool {
    field_end(m, a, n, d) < n && m[a + field_end(m, a, n, d)] != 0
}

/// Splitting off the field at `a` gives the memory `m2` and the place `next` of
/// the one behind it, null where it was the last.
pub open spec fn separates(
    m: Seq<u8>,
    a: int,
    n: int,
    d: Seq<u8>,
    m2: Seq<u8>,
    next: usize,
) -> bool {
    if field_cut(m, a, n, d) {
        &&& m2 == m.update(a + field_end(m, a, n, d), 0)
        &&& next == a + field_end(m, a, n, d) + 1
    } else {
        m2 == m && next == 0
    }
}

/// The exchanges of `strsep` with the runtime.
pub open spec fn strsep_events(m: Seq<u8>, rt: Runtime, s: Ptr, delim: Ptr) -> Seq<Event> {
    if rt.strict || s.null() {
        seq![]
    } else if delim.null() {
        seq![rt.outcome_two(s, delim, CheckStage::Null)]
    } else {
        let ask = Event::Decide(
            Query {
                addr: s.addr,
                len: 0,
                write: true,
                untracked: s.remaining is None && delim.remaining is None,
            },
        );
        if rt.denies() {
            seq![
                ask,
                rt.outcome_two(s, delim, CheckStage::Arena),
                Event::Observe { cost: Cost::Flat(6), adverse: true },
            ]
        } else {
            let len = c_len(m, s.at(), rt.bound(s)) as usize;
            let ended = c_ended(m, delim.at(), delim.remaining);
            let span = if ended {
                len
            } else {
                sat_sum(len, c_len(m, delim.at(), delim.remaining) as usize)
            };
            seq![
                ask,
                rt.outcome_two(s, delim, CheckStage::Bounds),
                Event::Observe {
                    cost: Cost::Scaled(7, span),
                    adverse: !ended || rt.bound(s) is Some,
                },
            ]
        }
    }
}

/// Splits the field at `s` off a string: its delimiter is overwritten by a NUL.
/// Returns the field, and where `stringp` then points; without delimiters the
/// whole string is the field.
///
/// `s` is what the caller's pointer holds.
fn strsep_at(mem: &mut Memory, s: Ptr, delim: Ptr, cx: &mut Membrane) -> (r: (usize, usize))
    requires
        !s.null(),
        !delim.null() && served(old(cx).rt) ==> readable(
            old(mem)@,
            s.at(),
            text_bound(old(cx).rt, s.remaining),
        ) && readable(old(mem)@, delim.at(), delim_bound(old(cx).rt, delim)),
    ensures
        strsep_result(old(mem)@, old(cx).rt, s, delim, final(mem)@, r.0, r.1),
        final(cx).follows(*old(cx), strsep_events(old(mem)@, old(cx).rt, s, delim)),
{
    let size: usize = mem.size();
    if cx.rt.strict {
        if delim.is_null() {
            return (s.addr, 0);
        }
        let (delim_len, delim_terminated) = scan_c_string(mem, delim.addr, None);
        let ghost m = mem@;
        proof {
            lemma_c_len(m, delim.at(), None);
            lemma_c_len(m, s.at(), None);
            lemma_stop_of(m, s.addr, set_of(m, delim.addr), true);
            lemma_region_stop(m, s.addr, 0, set_of(m, delim.addr), true);
        }
        let idx: usize = span_stop(mem, s.addr, delim.addr, delim_len, true);
        if mem.load(s.addr + idx) != 0 {
            mem.store(s.addr + idx, 0);
            return (s.addr, s.addr + idx + 1);
        }
        return (s.addr, 0);
    }
    strsep_validating(mem, s, delim, cx)
}

/// What `strsep` does to the string at `s`.
pub open spec fn strsep_result(
    m: Seq<u8>,
    rt: Runtime,
    s: Ptr,
    delim: Ptr,
    m2: Seq<u8>,
    field: usize,
    next: usize,
) -> bool {
    let db = delim_bound(rt, delim);
    if delim.null() {
        field == s.addr && next == 0 && m2 == m
    } else if !served(rt) || !c_ended(m, delim.at(), db) {
        field == 0 && next == s.addr && m2 == m
    } else {
        field == s.addr && separates(
            m,
            s.at(),
            region(m, s.at(), text_bound(rt, s.remaining)),
            c_bytes(m, delim.at(), db),
            m2,
            next,
        )
    }
}

fn strsep_validating(mem: &mut Memory, s: Ptr, delim: Ptr, cx: &mut Membrane) -> (r: (usize, usize))
    requires
        !old(cx).rt.strict,
        !s.null(),
        !delim.null() && served(old(cx).rt) ==> readable(
            old(mem)@,
            s.at(),
            text_bound(old(cx).rt, s.remaining),
        ) && readable(old(mem)@, delim.at(), delim.remaining),
    ensures
        strsep_result(old(mem)@, old(cx).rt, s, delim, final(mem)@, r.0, r.1),
        final(cx).follows(*old(cx), strsep_events(old(mem)@, old(cx).rt, s, delim)),
{
    let size: usize = mem.size();
    if delim.is_null() {
        cx.outcome_two(s, delim, CheckStage::Null);
        return (s.addr, 0);
    }
    let query = Query {
        addr: s.addr,
        len: 0,
        write: true,
        untracked: s.remaining.is_none() && delim.remaining.is_none(),
    };
    if !cx.decide(query) {
        cx.outcome_two(s, delim, CheckStage::Arena);
        cx.observe(Cost::Flat(6), true);
        return (0, s.addr);
    }
    let s_bound: Option<usize> = cx.bound(s);
    let (s_len, s_term) = scan_c_string(mem, s.addr, s_bound);
    let (delim_len, delim_term) = scan_c_string(mem, delim.addr, delim.remaining);
    proof {
        lemma_c_len(mem@, s.at(), s_bound);
        lemma_c_len(mem@, delim.at(), delim.remaining);
    }
    if !delim_term {
        cx.outcome_two(s, delim, CheckStage::Bounds);
        cx.observe(Cost::Scaled(7, s_len.saturating_add(delim_len)), true);
        return (0, s.addr);
    }
    let n: usize = if s_term {
        s_len + 1
    } else {
        s_len
    };
    let idx: usize = span_core(mem, s.addr, n, delim.addr, delim_len, true);
    let next: usize = if idx < n && mem.load(s.addr + idx) != 0 {
        mem.store(s.addr + idx, 0);
        s.addr + idx + 1
    } else {
        0
    };
    cx.outcome_two(s, delim, CheckStage::Bounds);
    cx.observe(Cost::Scaled(7, s_len), s_bound.is_some());
    (s.addr, next)
}

/// The pointer that `stringp` holds, with what is known of it.
pub open spec fn held(stringp: Option<usize>, remaining: Option<usize>, owned: bool) -> Ptr {
    Ptr {
        addr: match stringp {
            Some(a) => a,
            None => 0,
        },
        remaining,
        owned,
    }
}

/// Splits the next field off the string that `stringp` holds and advances
/// `stringp` behind its delimiter, or to null where it was the last field.
/// `stringp` is `None` where the caller gave no such place. Returns the field,
/// or null where there is no string.
pub fn strsep(
    mem: &mut Memory,
    stringp: &mut Option<usize>,
    remaining: Option<usize>,
    owned: bool,
    delim: Ptr,
    cx: &mut Membrane,
) -> (r: usize)
    requires
        !held(*old(stringp), remaining, owned).null() && !delim.null() && served(old(cx).rt)
            ==> readable(
            old(mem)@,
            held(*old(stringp), remaining, owned).at(),
            text_bound(old(cx).rt, remaining),
        ) && readable(old(mem)@, delim.at(), delim_bound(old(cx).rt, delim)),
    ensures
        held(*old(stringp), remaining, owned).null() ==> r == 0 && *final(stringp) == *old(stringp)
            && final(mem)@ == old(mem)@,
        !held(*old(stringp), remaining, owned).null() ==> *final(stringp) is Some && strsep_result(
            old(mem)@,
            old(cx).rt,
            held(*old(stringp), remaining, owned),
            delim,
            final(mem)@,
            r,
            final(stringp)->Some_0,
        ),
        final(cx).follows(
            *old(cx),
            strsep_events(
                old(mem)@,
                old(cx).rt,
                held(*old(stringp), remaining, owned),
                delim,
            ),
        ),
{
    let addr: usize = match *stringp {
        Some(a) => a,
        None => 0,
    };
    if addr == 0 {
        return 0;
    }
    let s = Ptr { addr, remaining, owned };
    let (field, next) = strsep_at(mem, s, delim, cx);
    *stringp = Some(next);
    field
}

/// As [`strsep`].
pub fn __strsep_g(
    mem: &mut Memory,
    stringp: &mut Option<usize>,
    remaining: Option<usize>,
    owned: bool,
    delim: Ptr,
    cx: &mut Membrane,
) -> (r: usize)
    requires
        !held(*old(stringp), remaining, owned).null() && !delim.null() && served(old(cx).rt)
            ==> readable(
            old(mem)@,
            held(*old(stringp), remaining, owned).at(),
            text_bound(old(cx).rt, remaining),
        ) && readable(old(mem)@, delim.at(), delim_bound(old(cx).rt, delim)),
    ensures
        held(*old(stringp), remaining, owned).null() ==> r == 0 && *final(stringp) == *old(stringp)
            && final(mem)@ == old(mem)@,
        !held(*old(stringp), remaining, owned).null() ==> *final(stringp) is Some && strsep_result(
            old(mem)@,
            old(cx).rt,
            held(*old(stringp), remaining, owned),
            delim,
            final(mem)@,
            r,
            final(stringp)->Some_0,
        ),
        final(cx).follows(
            *old(cx),
            strsep_events(
                old(mem)@,
                old(cx).rt,
                held(*old(stringp), remaining, owned),
                delim,
            ),
        ),
{
    strsep(mem, stringp, remaining, owned, delim, cx)
}

/// As [`strsep`] over one delimiter, written as a string into the buffer at
/// `buf`.
pub fn __strsep_1c(
    mem: &mut Memory,
    stringp: &mut Option<usize>,
    remaining: Option<usize>,
    owned: bool,
    d1: u8,
    buf: Ptr,
    cx: &mut Membrane,
) -> (r: usize)
    requires
        !buf.null(),
        mapped(old(mem)@, buf.at(), 2),
        !held(*old(stringp), remaining, owned).null() && served(old(cx).rt) ==> readable(
            put(old(mem)@, buf.at(), seq![d1, 0]),
            held(*old(stringp), remaining, owned).at(),
            text_bound(old(cx).rt, remaining),
        ) && readable(
            put(old(mem)@, buf.at(), seq![d1, 0]),
            buf.at(),
            delim_bound(old(cx).rt, buf),
        ),
    ensures
        held(*old(stringp), remaining, owned).null() ==> r == 0 && *final(stringp) == *old(stringp)
            && final(mem)@ == put(old(mem)@, buf.at(), seq![d1, 0]),
        !held(*old(stringp), remaining, owned).null() ==> *final(stringp) is Some && strsep_result(
            put(old(mem)@, buf.at(), seq![d1, 0]),
            old(cx).rt,
            held(*old(stringp), remaining, owned),
            buf,
            final(mem)@,
            r,
            final(stringp)->Some_0,
        ),
        final(cx).follows(
            *old(cx),
            strsep_events(
                put(old(mem)@, buf.at(), seq![d1, 0]),
                old(cx).rt,
                held(*old(stringp), remaining, owned),
                buf,
            ),
        ),
{
    let text: [u8; 2] = [d1, 0];
    assert(text@ =~= seq![d1, 0]);
    mem.write(buf.addr, text.as_slice());
    strsep(mem, stringp, remaining, owned, buf, cx)
}

/// As [`strsep`] over two delimiters, written as a string into the buffer at
/// `buf`.
pub fn __strsep_2c(
    mem: &mut Memory,
    stringp: &mut Option<usize>,
    remaining: Option<usize>,
    owned: bool,
    d1: u8,
    d2: u8,
    buf: Ptr,
    cx: &mut Membrane,
) -> (r: usize)
    requires
        !buf.null(),
        mapped(old(mem)@, buf.at(), 3),
        !held(*old(stringp), remaining, owned).null() && served(old(cx).rt) ==> readable(
            put(old(mem)@, buf.at(), seq![d1, d2, 0]),
            held(*old(stringp), remaining, owned).at(),
            text_bound(old(cx).rt, remaining),
        ) && readable(
            put(old(mem)@, buf.at(), seq![d1, d2, 0]),
            buf.at(),
            delim_bound(old(cx).rt, buf),
        ),
    ensures
        held(*old(stringp), remaining, owned).null() ==> r == 0 && *final(stringp) == *old(stringp)
            && final(mem)@ == put(old(mem)@, buf.at(), seq![d1, d2, 0]),
        !held(*old(stringp), remaining, owned).null() ==> *final(stringp) is Some && strsep_result(
            put(old(mem)@, buf.at(), seq![d1, d2, 0]),
            old(cx).rt,
            held(*old(stringp), remaining, owned),
            buf,
            final(mem)@,
            r,
            final(stringp)->Some_0,
        ),
        final(cx).follows(
            *old(cx),
            strsep_events(
                put(old(mem)@, buf.at(), seq![d1, d2, 0]),
                old(cx).rt,
                held(*old(stringp), remaining, owned),
                buf,
            ),
        ),
{
    let text: [u8; 3] = [d1, d2, 0];
    assert(text@ =~= seq![d1, d2, 0]);
    mem.write(buf.addr, text.as_slice());
    strsep(mem, stringp, remaining, owned, buf, cx)
}

/// As [`strsep`] over three delimiters, written as a string into the buffer at
/// `buf`.
pub fn __strsep_3c(
    mem: &mut Memory,
    stringp: &mut Option<usize>,
    remaining: Option<usize>,
    owned: bool,
    d1: u8,
    d2: u8,
    d3: u8,
    buf: Ptr,
    cx: &mut Membrane,
) -> (r: usize)
    requires
        !buf.null(),
        mapped(old(mem)@, buf.at(), 4),
        !held(*old(stringp), remaining, owned).null() && served(old(cx).rt) ==> readable(
            put(old(mem)@, buf.at(), seq![d1, d2, d3, 0]),
            held(*old(stringp), remaining, owned).at(),
            text_bound(old(cx).rt, remaining),
        ) && readable(
            put(old(mem)@, buf.at(), seq![d1, d2, d3, 0]),
            buf.at(),
            delim_bound(old(cx).rt, buf),
        ),
    ensures
        held(*old(stringp), remaining, owned).null() ==> r == 0 && *final(stringp) == *old(stringp)
            && final(mem)@ == put(old(mem)@, buf.at(), seq![d1, d2, d3, 0]),
        !held(*old(stringp), remaining, owned).null() ==> *final(stringp) is Some && strsep_result(
            put(old(mem)@, buf.at(), seq![d1, d2, d3, 0]),
            old(cx).rt,
            held(*old(stringp), remaining, owned),
            buf,
            final(mem)@,
            r,
            final(stringp)->Some_0,
        ),
        final(cx).follows(
            *old(cx),
            strsep_events(
                put(old(mem)@, buf.at(), seq![d1, d2, d3, 0]),
                old(cx).rt,
                held(*old(stringp), remaining, owned),
                buf,
            ),
        ),
{
    let text: [u8; 4] = [d1, d2, d3, 0];
    assert(text@ =~= seq![d1, d2, d3, 0]);
    mem.write(buf.addr, text.as_slice());
    strsep(mem, stringp, remaining, owned, buf, cx)
}

/// As [`strtok_r`] over one delimiter, written as a string into the buffer at
/// `buf`.
pub fn __strtok_r_1c(
    mem: &mut Memory,
    s: Ptr,
    delim: u8,
    buf: Ptr,
    save: &mut Option<usize>,
    saved_remaining: Option<usize>,
    cx: &mut Membrane,
) -> (r: usize)
    requires
        !buf.null(),
        mapped(old(mem)@, buf.at(), 2),
        *old(save) is Some && served(old(cx).rt) && resumed(s, old(save)->Some_0) != 0 ==> readable(
            put(old(mem)@, buf.at(), seq![delim, 0]),
            resumed(s, old(save)->Some_0) as int,
            text_bound(old(cx).rt, resumed_remaining(s, saved_remaining)),
        ) && readable(
            put(old(mem)@, buf.at(), seq![delim, 0]),
            buf.at(),
            delim_bound(old(cx).rt, buf),
        ),
    ensures
        *old(save) is None || !served(old(cx).rt) ==> r == 0 && final(mem)@ == put(
            old(mem)@,
            buf.at(),
            seq![delim, 0],
        ) && *final(save) == *old(save),
        *old(save) is Some && served(old(cx).rt) ==> *final(save) is Some && {
            let m = put(old(mem)@, buf.at(), seq![delim, 0]);
            let cur = resumed(s, old(save)->Some_0);
            let bound = text_bound(old(cx).rt, resumed_remaining(s, saved_remaining));
            let db = delim_bound(old(cx).rt, buf);
            if cur == 0 || !c_ended(m, buf.at(), db) {
                r == 0 && *final(save) == Some(0usize) && final(mem)@ == m
            } else {
                tokenises(
                    m,
                    cur as int,
                    region(m, cur as int, bound),
                    c_bytes(m, buf.at(), db),
                    final(mem)@,
                    r,
                    final(save)->Some_0,
                )
            }
        },
        final(cx).follows(
            *old(cx),
            strtok_r_events(
                put(old(mem)@, buf.at(), seq![delim, 0]),
                old(cx).rt,
                s,
                buf,
                *old(save),
                saved_remaining,
            ),
        ),
{
    let text: [u8; 2] = [delim, 0];
    assert(text@ =~= seq![delim, 0]);
    mem.write(buf.addr, text.as_slice());
    strtok_r(mem, s, buf, save, saved_remaining, cx)
}

/// A token is a C string of its own: it is not empty, holds no delimiter, and
/// only delimiters were skipped to reach it.
pub proof fn law_token_is_a_string(m: Seq<u8>, a: int, bound: Option<usize>, d: Seq<u8>)
    requires
        readable(m, a, bound),
        c_ended(m, a, bound),
        has_token(m, a, region(m, a, bound), d),
    ensures
        ({
            let n = region(m, a, bound);
            let st = token_start(m, a, n, d);
            let en = token_end(m, a, n, d);
            let tok = c_bytes(after_token(m, a, n, d), a + st, None);
            &&& tok == block(m, a + st, en - st)
            &&& tok.len() > 0
            &&& forall|i: int| 0 <= i < tok.len() ==> !d.contains(#[trigger] tok[i])
            &&& forall|j: int| a <= j < a + st ==> d.contains(#[trigger] m[j])
        }),
{
    let n = region(m, a, bound);
    let st = token_start(m, a, n, d);
    let en = token_end(m, a, n, d);
    let m2 = after_token(m, a, n, d);
    lemma_c_len(m, a, bound);
    lemma_token(m, a, n, d);
    assert(m[a + n - 1] == 0);
    if en == n {
        assert(m[a + n - 1] != 0);
    }
    assert(m2[a + en] == 0);
    assert forall|j: int| a + st <= j < a + en implies #[trigger] m2[j] != 0 by {
        assert(m2[j] == m[j]);
    }
    assert(has_nul(m2, a + st));
    lemma_c_len_is(m2, a + st, None, en - st);
    let tok = c_bytes(m2, a + st, None);
    assert(tok =~= block(m, a + st, en - st));
    assert forall|i: int| 0 <= i < tok.len() implies !d.contains(#[trigger] tok[i]) by {
        assert(m[a + st + i] == tok[i]);
    }
}

/// On strings that end before their bound `strtok` and `strtok_r` go on from
/// the same place.
pub proof fn law_strtok_goes_on_like_strtok_r(m: Seq<u8>, a: int, bound: Option<usize>, d: Seq<u8>)
    requires
        readable(m, a, bound),
        c_ended(m, a, bound),
        has_token(m, a, region(m, a, bound), d),
    ensures
        ({
            let n = region(m, a, bound);
            strtok_next(m, a, n, d) == token_end(m, a, n, d) + if token_cut(m, a, n, d) {
                1int
            } else {
                0
            }
        }),
{
    let n = region(m, a, bound);
    lemma_c_len(m, a, bound);
    lemma_token(m, a, n, d);
    assert(m[a + n - 1] == 0);
}

/// The fields that `strsep` splits off put the string together again: the field
/// is what stood before the first delimiter, and what follows is untouched.
pub proof fn law_strsep_keeps_the_fields(
    m: Seq<u8>,
    a: int,
    bound: Option<usize>,
    d: Seq<u8>,
    m2: Seq<u8>,
    next: usize,
)
    requires
        readable(m, a, bound),
        c_ended(m, a, bound),
        separates(m, a, region(m, a, bound), d, m2, next),
    ensures
        ({
            let en = field_end(m, a, region(m, a, bound), d);
            &&& c_bytes(m2, a, None) == block(m, a, en)
            &&& forall|j: int| a <= j < a + en ==> !d.contains(#[trigger] m[j])
            &&& next == 0 ==> en == c_len(m, a, None)
            &&& next != 0 ==> d.contains(m[a + en]) && block(
                m2,
                next as int,
                m.len() - next,
            ) == block(m, next as int, m.len() - next)
        }),
{
    let n = region(m, a, bound);
    let p = is_stop(d, true);
    lemma_c_len(m, a, bound);
    lemma_find(m, a, n, p);
    let en = field_end(m, a, n, d);
    assert(p(m[a + n - 1]));
    if en == n {
        assert(!p(m[a + n - 1]));
    }
    assert forall|j: int| a <= j < a + en implies #[trigger] m[j] != 0 && !d.contains(m[j])
        && m2[j] != 0 by {
        assert(!p(m[j]));
    }
    assert(m2[a + en] == 0);
    assert(has_nul(m2, a));
    lemma_c_len_is(m2, a, None, en);
    assert(c_bytes(m2, a, None) =~= block(m, a, en));
    if next == 0 {
        lemma_c_len_is(m, a, None, en);
    } else {
        assert(block(m2, next as int, m.len() - next) =~= block(m, next as int, m.len() - next));
    }
}

/// The next call goes on with the string behind the token's delimiter, which is
/// still as it was.
pub proof fn law_next_call_sees_the_rest(m: Seq<u8>, a: int, bound: Option<usize>, d: Seq<u8>)
    requires
        readable(m, a, bound),
        c_ended(m, a, bound),
        has_token(m, a, region(m, a, bound), d),
        token_cut(m, a, region(m, a, bound), d),
    ensures
        ({
            let n = region(m, a, bound);
            let next = a + token_end(m, a, n, d) + 1;
            &&& readable(after_token(m, a, n, d), next, None)
            &&& c_bytes(after_token(m, a, n, d), next, None) == c_bytes(m, next, None)
            &&& next + c_len(m, next, None) == a + c_len(m, a, bound)
        }),
{
    let n = region(m, a, bound);
    let next = a + token_end(m, a, n, d) + 1;
    let m2 = after_token(m, a, n, d);
    lemma_c_len(m, a, bound);
    lemma_token(m, a, n, d);
    let e = a + c_len(m, a, bound);
    assert(m[e] == 0);
    assert(m2[e] == 0);
    assert forall|j: int| next <= j < e implies #[trigger] m2[j] != 0 by {
        assert(m2[j] == m[j]);
    }
    assert(has_nul(m, next));
    assert(has_nul(m2, next));
    lemma_c_len_is(m, next, None, e - next);
    lemma_c_len_is(m2, next, None, e - next);
    assert(c_bytes(m2, next, None) =~= c_bytes(m, next, None));
}

/// There is no token exactly where every byte of the string is a delimiter.
pub proof fn law_no_token_means_only_delimiters(
    m: Seq<u8>,
    a: int,
    bound: Option<usize>,
    d: Seq<u8>,
)
    requires
        readable(m, a, bound),
        !d.contains(0),
    ensures
        has_token(m, a, region(m, a, bound), d) <==> exists|j: int|
            a <= j < a + c_len(m, a, bound) && !d.contains(#[trigger] m[j]),
{
    let n = region(m, a, bound);
    let k = c_len(m, a, bound);
    let p = is_stop(d, false);
    lemma_c_len(m, a, bound);
    lemma_find(m, a, n, p);
    let st = token_start(m, a, n, d);
    if has_token(m, a, n, d) {
        assert(p(m[a + st]));
        assert(st < k) by {
            if st > k {
                assert(!p(m[a + k]));
            }
        }
        assert(!d.contains(m[a + st]));
    } else if exists|j: int| a <= j < a + k && !d.contains(#[trigger] m[j]) {
        let j = choose|j: int| a <= j < a + k && !d.contains(#[trigger] m[j]);
        assert(p(m[j]));
        assert(a + st <= j);
        assert(m[a + st] != 0);
    }
}

/// Cutting a token off changes at most one byte: the delimiter behind the token,
/// which becomes a NUL, and the search goes on behind it. Where no delimiter
/// follows, nothing changes, and the search goes on at the end of the string.
pub proof fn law_token_is_cut_at_a_delimiter(
    m: Seq<u8>,
    a: int,
    bound: Option<usize>,
    d: Seq<u8>,
    m2: Seq<u8>,
    tok: usize,
    save: usize,
)
    requires
        0 < a,
        readable(m, a, bound),
        !d.contains(0),
        tokenises(m, a, region(m, a, bound), d, m2, tok, save),
    ensures
        tok == 0 ==> m2 == m && save == 0,
        tok == 0 <==> forall|j: int| a <= j < a + c_len(m, a, bound) ==> d.contains(#[trigger] m[j]),
        tok != 0 ==> {
            &&& a <= tok < save <= a + region(m, a, bound)
            &&& forall|j: int| a <= j < tok ==> d.contains(#[trigger] m[j])
            &&& !d.contains(m[tok as int]) && m[tok as int] != 0
            &&& {
                ||| d.contains(m[save - 1]) && m2 == m.update(save - 1, 0) && forall|j: int|
                    tok <= j < save - 1 ==> !d.contains(#[trigger] m[j]) && m[j] != 0
                ||| save == a + c_len(m, a, bound) && m2 == m && forall|j: int|
                    tok <= j < save ==> !d.contains(#[trigger] m[j]) && m[j] != 0
            }
        },
{
    let n = region(m, a, bound);
    let k = c_len(m, a, bound);
    lemma_c_len(m, a, bound);
    law_no_token_means_only_delimiters(m, a, bound, d);
    if has_token(m, a, n, d) {
        let p = is_stop(d, false);
        let q = is_stop(d, true);
        let st = token_start(m, a, n, d);
        lemma_find(m, a, n, p);
        lemma_find(m, a + st, n - st, q);
        let en = token_end(m, a, n, d);
        assert(p(m[a + st]));
        assert(st < k) by {
            if st > k {
                assert(!p(m[a + k]));
            }
        }
        assert(en <= k) by {
            if en > k {
                assert(!q(m[a + k]));
            }
        }
        assert(en > st) by {
            if en == st {
                assert(q(m[a + st]));
            }
        }
        assert forall|j: int| a <= j < a + st implies d.contains(#[trigger] m[j]) by {
            assert(!p(m[j]));
        }
        assert forall|j: int| a + st <= j < a + en implies !d.contains(#[trigger] m[j]) && m[j]
            != 0 by {
            assert(!q(m[j]));
        }
        if token_cut(m, a, n, d) {
            assert(q(m[a + en]));
        } else {
            assert(en == k) by {
                if en < k {
                    assert(!is_nul()(m[a + en]));
                }
            }
        }
    }
}

/// Separating a field changes at most one byte: the delimiter behind the field,
/// which becomes a NUL. Where there is none, the field is the rest of the string,
/// and no next one follows.
pub proof fn law_field_is_cut_at_the_first_delimiter(
    m: Seq<u8>,
    a: int,
    bound: Option<usize>,
    d: Seq<u8>,
    m2: Seq<u8>,
    next: usize,
)
    requires
        0 <= a,
        readable(m, a, bound),
        !d.contains(0),
        separates(m, a, region(m, a, bound), d, m2, next),
    ensures
        next == 0 ==> m2 == m && forall|j: int|
            a <= j < a + c_len(m, a, bound) ==> !d.contains(#[trigger] m[j]),
        next != 0 ==> {
            &&& a < next <= a + c_len(m, a, bound)
            &&& d.contains(m[next - 1])
            &&& forall|j: int| a <= j < next - 1 ==> !d.contains(#[trigger] m[j])
            &&& m2 == m.update(next - 1, 0)
        },
{
    let n = region(m, a, bound);
    let k = c_len(m, a, bound);
    let q = is_stop(d, true);
    lemma_c_len(m, a, bound);
    lemma_find(m, a, n, q);
    let en = field_end(m, a, n, d);
    assert(en <= k) by {
        if en > k {
            assert(!q(m[a + k]));
        }
    }
    assert forall|j: int| a <= j < a + en implies !d.contains(#[trigger] m[j]) by {
        assert(!q(m[j]));
    }
    if field_cut(m, a, n, d) {
        assert(q(m[a + en]));
        assert(en < k);
    } else {
        assert(en == k) by {
            if en < k {
                assert(!is_nul()(m[a + en]));
            }
        }
    }
}

/// A call without a string goes on where the last one stopped; the text is bounded
/// by its allocation in a repaired call, and the delimiters in every call that is
/// not strict.
pub proof fn law_token_bounds(rt: Runtime, s: Ptr, saved: usize, left: Option<usize>)
    ensures
        s.addr == 0 ==> resumed(s, saved) == saved && resumed_remaining(s, left) == left,
        s.addr != 0 ==> resumed(s, saved) == s.addr && resumed_remaining(s, left) == s.remaining,
        !rt.strict && (rt.heals || rt.action is Repair) ==> text_bound(rt, left) == left,
        rt.strict || !(rt.heals || rt.action is Repair) ==> text_bound(rt, left) is None,
        rt.strict ==> delim_bound(rt, s) is None,
        !rt.strict ==> delim_bound(rt, s) == s.remaining,
        served(rt) <==> rt.strict || !(rt.action is Deny),
{
}

/// Taking a token that is strict leaves no trace. Another call with delimiters
/// asks the policy once, to write at the text that it goes on with; it is adverse
/// where it is denied, or where there is text and the delimiters have no end in
/// their allocation.
pub proof fn law_trace_of_a_token(
    m: Seq<u8>,
    rt: Runtime,
    s: Ptr,
    delim: Ptr,
    saved: usize,
    left: Option<usize>,
)
    requires
        delim.addr != 0,
    ensures
        ({
            let text = if s.addr == 0 {
                saved
            } else {
                s.addr
            };
            let known = if s.addr == 0 {
                left
            } else {
                s.remaining
            };
            let adverse = rt.action is Deny || (text != 0 && !c_ended(
                m,
                delim.at(),
                delim.remaining,
            ));
            let ev = strtok_r_events(m, rt, s, delim, Some(saved), left);
            let own = strtok_events(m, rt, s, delim, saved, left);
            &&& rt.strict ==> ev.len() == 0 && own.len() == 0
            &&& !rt.strict ==> asks(
                ev,
                Query {
                    addr: text,
                    len: 0,
                    write: true,
                    untracked: known is None && delim.remaining is None,
                },
            ) && verdict(ev) == Some(adverse)
            &&& !rt.strict ==> asks(
                own,
                Query {
                    addr: s.addr,
                    len: 0,
                    write: true,
                    untracked: s.remaining is None && delim.remaining is None,
                },
            ) && verdict(own) == Some(adverse)
        }),
{
}

/// Separating a field in a strict call, or where no string is left, leaves no
/// trace. Another call with delimiters asks the policy once, to write at the
/// string; it is adverse where it is denied, where the delimiters have no end in
/// their allocation, or where the string is bounded.
pub proof fn law_trace_of_a_field(m: Seq<u8>, rt: Runtime, s: Ptr, delim: Ptr)
    requires
        delim.addr != 0,
    ensures
        ({
            let ev = strsep_events(m, rt, s, delim);
            &&& rt.strict || s.addr == 0 ==> ev.len() == 0
            &&& !rt.strict && s.addr != 0 ==> asks(
                ev,
                Query {
                    addr: s.addr,
                    len: 0,
                    write: true,
                    untracked: s.remaining is None && delim.remaining is None,
                },
            ) && verdict(ev) == Some(
                rt.action is Deny || !c_ended(m, delim.at(), delim.remaining) || rt.reach(
                    s,
                ) is Some,
            )
        }),
{
}

/// The outcome of separating a field: without delimiters it is the whole string
/// and none follows; a call that is refused, or whose delimiters have no end in
/// their allocation, gives null and leaves the string where it is; any other gives
/// the string.
pub proof fn law_outcome_of_separating(
    m: Seq<u8>,
    rt: Runtime,
    s: Ptr,
    delim: Ptr,
    m2: Seq<u8>,
    field: usize,
    next: usize,
)
    requires
        strsep_result(m, rt, s, delim, m2, field, next),
    ensures
        delim.addr == 0 ==> field == s.addr && next == 0 && m2 == m,
        delim.addr != 0 && !rt.strict && rt.action is Deny ==> field == 0 && next == s.addr && m2
            == m,
        delim.addr != 0 && !c_ended(m, delim.at(), delim_bound(rt, delim)) ==> field == 0 && next
            == s.addr && m2 == m,
        delim.addr != 0 && (rt.strict || !(rt.action is Deny)) && c_ended(
            m,
            delim.at(),
            delim_bound(rt, delim),
        ) ==> field == s.addr,
{
}

/// A string pointer that is missing counts as null.
pub proof fn law_missing_string_is_null(a: usize, left: Option<usize>, owned: bool)
    ensures
        held(None, left, owned).addr == 0,
        held(Some(a), left, owned).addr == a,
        held(Some(a), left, owned).remaining == left,
        held(Some(a), left, owned).owned == owned,
{
}

} // verus!
