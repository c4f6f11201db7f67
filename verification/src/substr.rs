//! Strings and blocks found inside others.
use vstd::prelude::*;
use crate::membrane::{
    ask_two,
    asks,
    clamp_log,
    healed,
    report,
    truncation,
    verdict,
    CheckStage,
    Cost,
    Event,
    HealingAction,
    Membrane,
    Query,
    Runtime,
};
use crate::memory::{block, mapped, sat_sum, Memory, Ptr};
use crate::order::seen;
use crate::scan::{
    c_bytes,
    c_ended,
    c_len,
    extent,
    has_nul,
    is_byte_or_nul,
    is_stop,
    lemma_c_len,
    lemma_c_len_is,
    lemma_find,
    opt_int,
    readable,
    scan_c_string,
    scan_c_string_for_byte,
    scan_c_string_for_set4,
    scan_c_string_nul_or_bound,
};
use crate::search::{strlen, strlen_bound, strlen_events, strlen_skips};
use crate::swar::lower;
use crate::matcher::{
    first_occurrence,
    law_found_at_the_first_place,
    fold_byte,
    lemma_first_occurrence,
    lemma_first_occurrence_is,
    occurs_at,
    search_block,
};

verus! {

proof fn lemma_occurs_in_memory(
    m: Seq<u8>,
    h: int,
    hn: int,
    nd: int,
    nn: int,
    fold: bool,
    i: int,
)
    requires
        mapped(m, h, hn),
        mapped(m, nd, nn),
        0 <= i,
        i + nn <= hn,
    ensures
        occurs_at(block(m, h, hn), block(m, nd, nn), fold, i) == forall|k: int|
            0 <= k < nn ==> seen(#[trigger] m[h + i + k], fold) == seen(m[nd + k], fold),
{
    let x = block(m, h, hn);
    let y = block(m, nd, nn);
    if occurs_at(x, y, fold, i) {
        assert forall|k: int| 0 <= k < nn implies seen(#[trigger] m[h + i + k], fold) == seen(
            m[nd + k],
            fold,
        ) by {
            assert(seen(x[i + k], fold) == seen(y[k], fold));
        }
    }
    if forall|k: int| 0 <= k < nn ==> seen(#[trigger] m[h + i + k], fold) == seen(m[nd + k], fold) {
        assert forall|k: int| 0 <= k < nn implies seen(#[trigger] x[i + k], fold) == seen(
            y[k],
            fold,
        ) by {
            assert(seen(m[h + i + k], fold) == seen(m[nd + k], fold));
        }
    }
}

/// The first place in the string at `hay` of the needle, without a scan for the
/// end of the string first: each byte that may start the needle is tried, and
/// once many tries have failed the rest is searched as a block.
fn fused_first_byte(mem: &Memory, hay: usize, needle: usize, needle_len: usize, fold: bool) -> (r:
    Option<usize>)
    requires
        readable(mem@, hay as int, None),
        mapped(mem@, needle as int, needle_len as int),
        needle_len > 0,
        forall|j: int| needle <= j < needle + needle_len ==> #[trigger] mem@[j] != 0,
    ensures
        opt_int(r) == first_occurrence(
            c_bytes(mem@, hay as int, None),
            block(mem@, needle as int, needle_len as int),
            fold,
        ),
        r matches Some(i) ==> i + needle_len <= c_len(mem@, hay as int, None),
{
    let size: usize = mem.size();
    let ghost m = mem@;
    let ghost hn = c_len(m, hay as int, None);
    let ghost x = c_bytes(m, hay as int, None);
    let ghost y = block(m, needle as int, needle_len as int);
    proof {
        lemma_c_len(m, hay as int, None);
    }
    let n0: u8 = mem.load(needle);
    let lo: u8 = fold_byte(n0, fold);
    let mut pos: usize = 0;
    let mut miss_work: usize = 0;
    loop
        invariant
            m == mem@,
            size == m.len(),
            size <= usize::MAX / 2,
            hn == c_len(m, hay as int, None),
            x == c_bytes(m, hay as int, None),
            y == block(m, needle as int, needle_len as int),
            needle + needle_len <= size,
            needle_len > 0,
            hay + hn < size,
            m[hay + hn] == 0,
            forall|j: int| hay <= j < hay + hn ==> #[trigger] m[j] != 0,
            forall|j: int| needle <= j < needle + needle_len ==> #[trigger] m[j] != 0,
            n0 == m[needle as int],
            lo == seen(n0, fold),
            pos <= hn,
            miss_work <= usize::MAX / 2,
            forall|j: int| 0 <= j < pos ==> !#[trigger] occurs_at(x, y, fold, j),
        decreases hn - pos,
    {
        let cand: usize = next_start(mem, hay, pos, lo, fold, Ghost(hn));
        assert forall|j: int| 0 <= j < cand implies !#[trigger] occurs_at(x, y, fold, j) by {
            if j >= pos && occurs_at(x, y, fold, j) {
                assert(seen(x[j + 0], fold) == seen(y[0], fold));
                assert(m[hay + j] == x[j]);
            }
        }
        if mem.load(hay + cand) == 0 {
            proof {
                assert(cand == hn);
                assert forall|j: int| !#[trigger] occurs_at(x, y, fold, j) by {}
                lemma_first_occurrence_is(x, y, fold, None);
            }
            return None;
        }
        let mut k: usize = 1;
        let mut matched: bool = true;
        while k < needle_len
            invariant_except_break
                matched,
            invariant
                m == mem@,
                size == m.len(),
                1 <= k <= needle_len,
                needle + needle_len <= size,
                hay + hn < size,
                m[hay + hn] == 0,
                cand + k <= hn,
                forall|j: int| needle <= j < needle + needle_len ==> #[trigger] m[j] != 0,
                forall|j: int|
                    0 <= j < k ==> seen(#[trigger] m[hay + cand + j], fold) == seen(
                        m[needle + j],
                        fold,
                    ),
            ensures
                matched ==> k == needle_len && cand + k <= hn && forall|j: int|
                    0 <= j < k ==> seen(#[trigger] m[hay + cand + j], fold) == seen(
                        m[needle + j],
                        fold,
                    ),
                !matched ==> k < needle_len && cand + k <= hn && seen(m[hay + cand + k], fold)
                    != seen(m[needle + k], fold),
            decreases needle_len - k,
        {
            let b: u8 = mem.load(hay + cand + k);
            let nb: u8 = mem.load(needle + k);
            if b == 0 || fold_byte(b, fold) != fold_byte(nb, fold) {
                matched = false;
                break;
            }
            k += 1;
        }
        if matched {
            proof {
                lemma_occurs_in_memory(
                    m,
                    hay as int,
                    hn,
                    needle as int,
                    needle_len as int,
                    fold,
                    cand as int,
                );
                lemma_first_occurrence_is(x, y, fold, Some(cand as int));
            }
            return Some(cand);
        }
        proof {
            if occurs_at(x, y, fold, cand as int) {
                assert(seen(x[cand + k], fold) == seen(y[k as int], fold));
                assert(cand + k < hn);
            }
        }
        miss_work = if miss_work < usize::MAX / 4 {
            miss_work + needle_len
        } else {
            miss_work
        };
        pos = cand + 1;
        let enough: usize = if cand < 256 {
            256
        } else {
            cand
        };
        if miss_work > enough {
            let (rest, _ended) = scan_c_string(mem, hay + cand, None);
            proof {
                assert(has_nul(m, hay + cand));
                lemma_c_len_is(m, hay + cand, None, hn - cand);
            }
            return search_block(mem, hay, cand + rest, needle, needle_len, pos, fold);
        }
    }
}

/// The first byte from `pos` on that may start the needle, or the NUL.
fn next_start(
    mem: &Memory,
    hay: usize,
    pos: usize,
    lo: u8,
    fold: bool,
    Ghost(hn): Ghost<int>,
) -> (r: usize)
    requires
        0 <= pos <= hn,
        hay + hn < mem@.len(),
        mem@[hay + hn] == 0,
        lo != 0,
        forall|j: int| hay <= j < hay + hn ==> #[trigger] mem@[j] != 0,
        exists|b: u8| lo == seen(b, fold),
    ensures
        pos <= r <= hn,
        r < hn ==> seen(mem@[hay + r], fold) == lo,
        forall|j: int| hay + pos <= j < hay + r ==> seen(#[trigger] mem@[j], fold) != lo,
{
    let size: usize = mem.size();
    let ghost m = mem@;
    assert(has_nul(m, hay + pos));
    if fold {
        let up: u8 = if 0x61 <= lo && lo <= 0x7a {
            lo - 0x20
        } else {
            lo
        };
        let set: [u8; 4] = [lo, up, lo, up];
        proof {
            assert(set@[0] == lo && set@[1] == up && set@[2] == lo && set@[3] == up);
            assert forall|b: u8| #[trigger] set@.contains(b) == (lower(b) == lo) by {
                if set@.contains(b) {
                    let i = choose|i: int| 0 <= i < 4 && set@[i] == b;
                    assert(b == lo || b == up);
                }
                if lower(b) == lo {
                    assert(set@[0] == b || set@[1] == b);
                }
            }
            lemma_find(m, hay + pos, m.len() - (hay + pos), is_stop(set@, true));
        }
        let i: usize = scan_c_string_for_set4(mem, hay + pos, set, false);
        proof {
            let p = is_stop(set@, true);
            assert forall|j: int| hay + pos <= j < hay + pos + i implies seen(
                #[trigger] m[j],
                fold,
            ) != lo by {
                assert(!p(m[j]));
            }
            assert(p(m[hay + pos + i]));
            if pos + i > hn {
                assert(!p(m[hay + hn]));
            }
        }
        pos + i
    } else {
        proof {
            lemma_find(m, hay + pos, extent(m, hay + pos, None), is_byte_or_nul(lo));
        }
        let (i, _found, _hit) = scan_c_string_for_byte(mem, hay + pos, lo, None);
        proof {
            let p = is_byte_or_nul(lo);
            assert forall|j: int| hay + pos <= j < hay + pos + i implies seen(
                #[trigger] m[j],
                fold,
            ) != lo by {
                assert(!p(m[j]));
            }
            if pos + i > hn {
                assert(!p(m[hay + hn]));
            }
        }
        pos + i
    }
}

/// The first place of the string at `needle` in the one at `hay`, with lengths
/// already known.
fn find_string(
    mem: &Memory,
    hay: usize,
    hay_bound: Option<usize>,
    needle: usize,
    needle_len: usize,
    fold: bool,
) -> (r: Option<usize>)
    requires
        readable(mem@, hay as int, hay_bound),
        mapped(mem@, needle as int, needle_len as int),
        forall|j: int| needle <= j < needle + needle_len ==> #[trigger] mem@[j] != 0,
    ensures
        opt_int(r) == first_occurrence(
            c_bytes(mem@, hay as int, hay_bound),
            block(mem@, needle as int, needle_len as int),
            fold,
        ),
        r matches Some(i) ==> hay + i + needle_len <= mem@.len(),
{
    proof {
        lemma_c_len(mem@, hay as int, hay_bound);
    }
    if needle_len == 0 {
        proof {
            lemma_first_occurrence_is(
                c_bytes(mem@, hay as int, hay_bound),
                block(mem@, needle as int, 0),
                fold,
                Some(0),
            );
        }
        return Some(0);
    }
    if hay_bound.is_none() && needle_len <= 256 {
        return fused_first_byte(mem, hay, needle, needle_len, fold);
    }
    let (hay_len, _ended) = scan_c_string(mem, hay, hay_bound);
    search_block(mem, hay, hay_len, needle, needle_len, 0, fold)
}

/// The bound under which `strstr` reads a string.
pub open spec fn strstr_bound(rt: Runtime, p: Ptr) -> Option<usize> {
    if rt.raw() {
        None
    } else {
        p.remaining
    }
}

/// The address that a search in the string at `hay` gives.
pub open spec fn strstr_value(h: Seq<u8>, n: Seq<u8>, fold: bool, hay: Ptr) -> int {
    match first_occurrence(h, n, fold) {
        Some(i) => hay.addr + i,
        None => 0,
    }
}

/// How far a validated search went.
pub open spec fn strstr_work(h: Seq<u8>, n: Seq<u8>) -> int {
    let work = if n.len() == 0 {
        1
    } else {
        match first_occurrence(h, n, false) {
            Some(i) => i + n.len(),
            None => h.len() as int,
        }
    };
    if work < n.len() {
        n.len() as int
    } else {
        work
    }
}

/// The exchanges of `strstr` with the runtime.
pub open spec fn strstr_events(m: Seq<u8>, rt: Runtime, hay: Ptr, needle: Ptr) -> Seq<Event> {
    if rt.raw() || rt.strict {
        seq![]
    } else if hay.null() || needle.null() {
        seq![rt.outcome_two(hay, needle, CheckStage::Null)]
    } else if rt.denies() {
        seq![
            ask_two(hay, needle, 0, false),
            rt.outcome_two(hay, needle, CheckStage::Arena),
            report(Cost::Flat(10), true),
        ]
    } else {
        let work = strstr_work(
            c_bytes(m, hay.at(), hay.remaining),
            c_bytes(m, needle.at(), needle.remaining),
        ) as usize;
        let cut = !c_ended(m, hay.at(), hay.remaining) || !c_ended(
            m,
            needle.at(),
            needle.remaining,
        );
        let note = if cut {
            seq![
                truncation(
                    sat_sum(
                        if hay.remaining is Some {
                            hay.remaining->Some_0
                        } else {
                            work
                        },
                        if needle.remaining is Some {
                            needle.remaining->Some_0
                        } else {
                            0
                        },
                    ),
                    work,
                ),
            ]
        } else {
            seq![]
        };
        seq![ask_two(hay, needle, 0, false)] + note + seq![
            rt.outcome_two(hay, needle, CheckStage::Bounds),
            report(Cost::Scaled(10, work), cut),
        ]
    }
}

/// The address of the first place in the string at `hay` of the one at `needle`:
/// `hay` for an empty or null needle; null where there is none, for a null `hay`
/// and for a denied call.
///
/// A string in a tracked allocation ends with it, unless the membrane is
/// bypassed.
pub fn strstr(mem: &Memory, hay: Ptr, needle: Ptr, cx: &mut Membrane) -> (r: usize)
    requires
        !hay.null() && !needle.null() && (old(cx).rt.raw() || old(cx).rt.serves()) ==> readable(
            mem@,
            hay.at(),
            strstr_bound(old(cx).rt, hay),
        ) && readable(mem@, needle.at(), strstr_bound(old(cx).rt, needle)),
    ensures
        r == if hay.null() {
            0
        } else if needle.null() {
            hay.at()
        } else if old(cx).rt.raw() || old(cx).rt.serves() {
            strstr_value(
                c_bytes(mem@, hay.at(), strstr_bound(old(cx).rt, hay)),
                c_bytes(mem@, needle.at(), strstr_bound(old(cx).rt, needle)),
                false,
                hay,
            )
        } else {
            0
        },
        final(cx).follows(*old(cx), strstr_events(mem@, old(cx).rt, hay, needle)),
{
    let size: usize = mem.size();
    if cx.string_raw_passthrough_active() {
        return raw_strstr(mem, hay, None, needle, None);
    }
    if cx.rt.strict {
        return raw_strstr(mem, hay, hay.remaining, needle, needle.remaining);
    }
    strstr_validating(mem, hay, needle, cx)
}

/// `strstr` under given bounds, without the membrane.
fn raw_strstr(
    mem: &Memory,
    hay: Ptr,
    hay_bound: Option<usize>,
    needle: Ptr,
    needle_bound: Option<usize>,
) -> (r: usize)
    requires
        !hay.null() && !needle.null() ==> readable(mem@, hay.at(), hay_bound) && readable(
            mem@,
            needle.at(),
            needle_bound,
        ),
    ensures
        r == if hay.null() {
            0
        } else if needle.null() {
            hay.at()
        } else {
            strstr_value(
                c_bytes(mem@, hay.at(), hay_bound),
                c_bytes(mem@, needle.at(), needle_bound),
                false,
                hay,
            )
        },
{
    let size: usize = mem.size();
    if hay.is_null() {
        return 0;
    }
    if needle.is_null() {
        return hay.addr;
    }
    proof {
        lemma_c_len(mem@, needle.at(), needle_bound);
    }
    let (needle_len, _ended) = scan_c_string(mem, needle.addr, needle_bound);
    match find_string(mem, hay.addr, hay_bound, needle.addr, needle_len, false) {
        Some(i) => hay.addr + i,
        None => 0,
    }
}

#[verifier::rlimit(30)]
fn strstr_validating(mem: &Memory, hay: Ptr, needle: Ptr, cx: &mut Membrane) -> (r: usize)
    requires
        !old(cx).rt.raw() && !old(cx).rt.strict,
        !hay.null() && !needle.null() && !old(cx).rt.denies() ==> readable(
            mem@,
            hay.at(),
            hay.remaining,
        ) && readable(mem@, needle.at(), needle.remaining),
    ensures
        r == if hay.null() {
            0
        } else if needle.null() {
            hay.at()
        } else if old(cx).rt.denies() {
            0
        } else {
            strstr_value(
                c_bytes(mem@, hay.at(), hay.remaining),
                c_bytes(mem@, needle.at(), needle.remaining),
                false,
                hay,
            )
        },
        final(cx).follows(*old(cx), strstr_events(mem@, old(cx).rt, hay, needle)),
{
    let size: usize = mem.size();
    if hay.is_null() {
        cx.outcome_two(hay, needle, CheckStage::Null);
        return 0;
    }
    if needle.is_null() {
        cx.outcome_two(hay, needle, CheckStage::Null);
        return hay.addr;
    }
    if !cx.ask_two(hay, needle, 0, false) {
        cx.outcome_two(hay, needle, CheckStage::Arena);
        cx.observe(Cost::Flat(10), true);
        return 0;
    }
    let (needle_len, needle_ended) = scan_c_string(mem, needle.addr, needle.remaining);
    let (hay_len, hay_ended) = scan_c_string(mem, hay.addr, hay.remaining);
    let ghost h = c_bytes(mem@, hay.at(), hay.remaining);
    let ghost n = c_bytes(mem@, needle.at(), needle.remaining);
    proof {
        lemma_c_len(mem@, needle.at(), needle.remaining);
        lemma_c_len(mem@, hay.at(), hay.remaining);
        lemma_first_occurrence(h, n, false);
    }
    let mut work: usize = hay_len;
    let mut out: usize = 0;
    if needle_len == 0 {
        proof {
            lemma_first_occurrence_is(h, n, false, Some(0));
        }
        out = hay.addr;
        work = 1;
    } else {
        match search_block(mem, hay.addr, hay_len, needle.addr, needle_len, 0, false) {
            Some(i) => {
                out = hay.addr + i;
                work = i + needle_len;
            },
            None => {},
        }
    }
    if work < needle_len {
        work = needle_len;
    }
    assert(work == strstr_work(h, n));
    let cut: bool = !hay_ended || !needle_ended;
    if cut {
        let hay_part: usize = match hay.remaining {
            Some(b) => b,
            None => work,
        };
        let needle_part: usize = match needle.remaining {
            Some(b) => b,
            None => 0,
        };
        cx.record_truncation(hay_part.saturating_add(needle_part), work);
    }
    cx.outcome_two(hay, needle, CheckStage::Bounds);
    cx.observe(Cost::Scaled(10, work), cut);
    out
}

/// The exchanges of `strcasestr` with the runtime.
pub open spec fn strcasestr_events(m: Seq<u8>, rt: Runtime, hay: Ptr, needle: Ptr) -> Seq<Event> {
    if rt.strict {
        seq![]
    } else if hay.null() || needle.null() {
        seq![rt.outcome_two(hay, needle, CheckStage::Null)]
    } else if rt.denies() {
        seq![
            ask_two(hay, needle, 0, false),
            rt.outcome_two(hay, needle, CheckStage::Arena),
            report(Cost::Flat(10), true),
        ]
    } else {
        seq![
            ask_two(hay, needle, 0, false),
            rt.outcome_two(hay, needle, CheckStage::Bounds),
            report(
                Cost::Scaled(10, c_len(m, hay.at(), hay.remaining) as usize),
                !c_ended(m, hay.at(), hay.remaining) || !c_ended(
                    m,
                    needle.at(),
                    needle.remaining,
                ),
            ),
        ]
    }
}

/// As [`strstr`], without regard to ASCII case. A string in a tracked allocation
/// ends with it.
pub fn strcasestr(mem: &Memory, hay: Ptr, needle: Ptr, cx: &mut Membrane) -> (r: usize)
    requires
        !hay.null() && !needle.null() && old(cx).rt.serves() ==> readable(
            mem@,
            hay.at(),
            hay.remaining,
        ) && readable(mem@, needle.at(), needle.remaining),
    ensures
        r == if hay.null() {
            0
        } else if needle.null() {
            hay.at()
        } else if old(cx).rt.serves() {
            strstr_value(
                c_bytes(mem@, hay.at(), hay.remaining),
                c_bytes(mem@, needle.at(), needle.remaining),
                true,
                hay,
            )
        } else {
            0
        },
        final(cx).follows(*old(cx), strcasestr_events(mem@, old(cx).rt, hay, needle)),
{
    let size: usize = mem.size();
    if hay.is_null() || needle.is_null() {
        if !cx.rt.strict {
            cx.outcome_two(hay, needle, CheckStage::Null);
        }
        return if hay.is_null() {
            0
        } else {
            hay.addr
        };
    }
    if !cx.rt.strict {
        if !cx.ask_two(hay, needle, 0, false) {
            cx.outcome_two(hay, needle, CheckStage::Arena);
            cx.observe(Cost::Flat(10), true);
            return 0;
        }
    }
    let (needle_len, needle_ended) = scan_c_string(mem, needle.addr, needle.remaining);
    proof {
        lemma_c_len(mem@, needle.at(), needle.remaining);
    }
    let out: usize = match find_string(
        mem,
        hay.addr,
        hay.remaining,
        needle.addr,
        needle_len,
        true,
    ) {
        Some(i) => hay.addr + i,
        None => 0,
    };
    if !cx.rt.strict {
        let (hay_len, hay_ended) = scan_c_string(mem, hay.addr, hay.remaining);
        cx.outcome_two(hay, needle, CheckStage::Bounds);
        cx.observe(Cost::Scaled(10, hay_len), !hay_ended || !needle_ended);
    }
    out
}

/// As [`strcasestr`].
pub fn __strcasestr(mem: &Memory, hay: Ptr, needle: Ptr, cx: &mut Membrane) -> (r: usize)
    requires
        !hay.null() && !needle.null() && old(cx).rt.serves() ==> readable(
            mem@,
            hay.at(),
            hay.remaining,
        ) && readable(mem@, needle.at(), needle.remaining),
    ensures
        r == if hay.null() {
            0
        } else if needle.null() {
            hay.at()
        } else if old(cx).rt.serves() {
            strstr_value(
                c_bytes(mem@, hay.at(), hay.remaining),
                c_bytes(mem@, needle.at(), needle.remaining),
                true,
                hay,
            )
        } else {
            0
        },
        final(cx).follows(*old(cx), strcasestr_events(mem@, old(cx).rt, hay, needle)),
{
    strcasestr(mem, hay, needle, cx)
}

/// The lengths that `memmem` searches and searches for.
pub open spec fn memmem_lens(rt: Runtime, hay_len: usize, needle_len: usize) -> (usize, usize) {
    if rt.strict {
        (hay_len, needle_len)
    } else {
        (
            rt.clamped(hay_len),
            if rt.repairs() && rt.needle_clamp is ClampSize {
                rt.needle_clamp->clamped
            } else {
                needle_len
            },
        )
    }
}

/// The exchanges of `memmem` with the runtime.
pub open spec fn memmem_events(
    rt: Runtime,
    hay: Ptr,
    hay_len: usize,
    needle: Ptr,
    needle_len: usize,
) -> Seq<Event> {
    if needle_len == 0 || rt.strict {
        seq![]
    } else if hay.null() || needle.null() {
        seq![rt.outcome_two(hay, needle, CheckStage::Null)]
    } else if hay_len == 0 {
        seq![]
    } else if rt.denies() {
        seq![
            ask_two(hay, needle, hay_len, false),
            rt.outcome_two(hay, needle, CheckStage::Arena),
            report(Cost::Scaled(10, hay_len), true),
        ]
    } else {
        seq![ask_two(hay, needle, hay_len, false)] + rt.clamp_events(hay_len, hay.remaining, None)
            + clamp_log(rt.repairs(), rt.needle_clamp, needle_len, needle.remaining, None) + seq![
            rt.outcome_two(hay, needle, CheckStage::Bounds),
            report(Cost::Scaled(10, rt.clamped(hay_len)), rt.clamps(hay_len)),
        ]
    }
}

/// The address of the first place of the `needle_len` bytes at `needle` in the
/// `hay_len` bytes at `hay`: `hay` for an empty needle; null where there is none,
/// for a null pointer, an empty `hay` and a denied call.
pub fn memmem(
    mem: &Memory,
    hay: Ptr,
    hay_len: usize,
    needle: Ptr,
    needle_len: usize,
    cx: &mut Membrane,
) -> (r: usize)
    requires
        needle_len != 0 && !hay.null() && !needle.null() && hay_len != 0 && old(cx).rt.serves()
            ==> mapped(
            mem@,
            hay.at(),
            memmem_lens(old(cx).rt, hay_len, needle_len).0 as int,
        ) && mapped(
            mem@,
            needle.at(),
            memmem_lens(old(cx).rt, hay_len, needle_len).1 as int,
        ),
    ensures
        r == if needle_len == 0 {
            hay.at()
        } else if hay.null() || needle.null() || hay_len == 0 || !old(cx).rt.serves() {
            0
        } else {
            let lens = memmem_lens(old(cx).rt, hay_len, needle_len);
            strstr_value(
                block(mem@, hay.at(), lens.0 as int),
                block(mem@, needle.at(), lens.1 as int),
                false,
                hay,
            )
        },
        final(cx).follows(
            *old(cx),
            memmem_events(old(cx).rt, hay, hay_len, needle, needle_len),
        ),
{
    let size: usize = mem.size();
    if needle_len == 0 {
        return hay.addr;
    }
    if cx.rt.strict {
        if hay.is_null() || needle.is_null() || hay_len == 0 {
            return 0;
        }
        return match search_block(mem, hay.addr, hay_len, needle.addr, needle_len, 0, false) {
            Some(i) => hay.addr + i,
            None => 0,
        };
    }
    if hay.is_null() || needle.is_null() {
        cx.outcome_two(hay, needle, CheckStage::Null);
        return 0;
    }
    if hay_len == 0 {
        return 0;
    }
    if !cx.ask_two(hay, needle, hay_len, false) {
        cx.outcome_two(hay, needle, CheckStage::Arena);
        cx.observe(Cost::Scaled(10, hay_len), true);
        return 0;
    }
    let (hay_scan, clamped) = cx.maybe_clamp_copy_len(hay_len, hay.remaining, None);
    let clamp: HealingAction = cx.rt.needle_clamp;
    let (needle_scan, _needle_clamped) = cx.clamp_copy_len_to(
        clamp,
        needle_len,
        needle.remaining,
        None,
    );
    let out: usize = match search_block(
        mem,
        hay.addr,
        hay_scan,
        needle.addr,
        needle_scan,
        0,
        false,
    ) {
        Some(i) => hay.addr + i,
        None => 0,
    };
    cx.outcome_two(hay, needle, CheckStage::Bounds);
    cx.observe(Cost::Scaled(10, hay_scan), clamped);
    out
}

/// The length of the needle that `strnstr` looks for.
pub open spec fn strnstr_needle(m: Seq<u8>, rt: Runtime, needle: Ptr) -> int {
    if !strlen_skips(rt, needle) && rt.denies() {
        0
    } else {
        c_len(m, needle.at(), strlen_bound(rt, needle))
    }
}

/// The address of the first place of the string at `needle` in the string at
/// `hay` or its first `n` bytes: `hay` for an empty or null needle, null where
/// there is none or `hay` is null.
pub fn strnstr(mem: &Memory, hay: Ptr, needle: Ptr, n: usize, cx: &mut Membrane) -> (r: usize)
    requires
        !hay.null() && !needle.null() ==> readable(mem@, hay.at(), Some(n)),
        !hay.null() && !needle.null() && (strlen_skips(old(cx).rt, needle)
            || !old(cx).rt.denies()) ==> readable(
            mem@,
            needle.at(),
            strlen_bound(old(cx).rt, needle),
        ),
    ensures
        r == if needle.null() || hay.null() {
            hay.at()
        } else if strnstr_needle(mem@, old(cx).rt, needle) == 0 {
            hay.at()
        } else {
            strstr_value(
                c_bytes(mem@, hay.at(), Some(n)),
                block(mem@, needle.at(), strnstr_needle(mem@, old(cx).rt, needle)),
                false,
                hay,
            )
        },
        final(cx).follows(
            *old(cx),
            if needle.null() || hay.null() {
                seq![]
            } else {
                strlen_events(mem@, old(cx).rt, needle)
            },
        ),
{
    let size: usize = mem.size();
    if needle.is_null() {
        return hay.addr;
    }
    if hay.is_null() {
        return 0;
    }
    let needle_len: usize = strlen(mem, needle, cx);
    if needle_len == 0 {
        return hay.addr;
    }
    proof {
        lemma_c_len(mem@, needle.at(), strlen_bound(old(cx).rt, needle));
        lemma_c_len(mem@, hay.at(), Some(n));
    }
    let (hay_len, _ended) = scan_c_string_nul_or_bound(mem, hay.addr, n);
    match search_block(mem, hay.addr, hay_len, needle.addr, needle_len, 0, false) {
        Some(i) => hay.addr + i,
        None => 0,
    }
}

/// A string found in another one stands there, and at no place before it.
pub proof fn law_found_string_stands_there(h: Seq<u8>, n: Seq<u8>, i: int)
    requires
        first_occurrence(h, n, false) == Some(i),
    ensures
        h.subrange(i, i + n.len()) == n,
        forall|j: int| 0 <= j < i && j + n.len() <= h.len() ==> #[trigger] h.subrange(
            j,
            j + n.len(),
        ) != n,
{
    lemma_first_occurrence(h, n, false);
    assert(occurs_at(h, n, false, i));
    assert forall|k: int| 0 <= k < n.len() implies h.subrange(i, i + n.len())[k] == n[k] by {
        assert(seen(h[i + k], false) == seen(n[k], false));
    }
    assert(h.subrange(i, i + n.len()) =~= n);
    assert forall|j: int| 0 <= j < i && j + n.len() <= h.len() implies #[trigger] h.subrange(
        j,
        j + n.len(),
    ) != n by {
        assert(!occurs_at(h, n, false, j));
        if h.subrange(j, j + n.len()) == n {
            assert forall|k: int| 0 <= k < n.len() implies seen(#[trigger] h[j + k], false) == seen(
                n[k],
                false,
            ) by {
                assert(h.subrange(j, j + n.len())[k] == n[k]);
            }
            assert(occurs_at(h, n, false, j));
        }
    }
}

/// An empty string stands at the start of every string.
pub proof fn law_empty_needle_is_found_first(h: Seq<u8>, fold: bool)
    ensures
        first_occurrence(h, Seq::<u8>::empty(), fold) == Some(0int),
{
    lemma_first_occurrence_is(h, Seq::<u8>::empty(), fold, Some(0));
}

/// What is found with regard to case is found without it, no later.
pub proof fn law_folding_finds_no_later(h: Seq<u8>, n: Seq<u8>, i: int)
    requires
        first_occurrence(h, n, false) == Some(i),
    ensures
        first_occurrence(h, n, true) matches Some(j) && j <= i,
{
    lemma_first_occurrence(h, n, false);
    lemma_first_occurrence(h, n, true);
    assert(occurs_at(h, n, false, i));
    assert(occurs_at(h, n, true, i)) by {
        assert forall|k: int| 0 <= k < n.len() implies seen(#[trigger] h[i + k], true) == seen(
            n[k],
            true,
        ) by {
            assert(seen(h[i + k], false) == seen(n[k], false));
        }
    }
}

/// A found string is given by its address, and null says that there is none.
pub proof fn law_found_address(h: Seq<u8>, n: Seq<u8>, fold: bool, hay: Ptr)
    requires
        hay.addr != 0,
    ensures
        strstr_value(h, n, fold, hay) == 0 <==> first_occurrence(h, n, fold) is None,
        first_occurrence(h, n, fold) matches Some(i) ==> strstr_value(h, n, fold, hay) - hay.addr
            == i,
{
    law_found_at_the_first_place(h, n, fold, 0);
}

/// Blocks are searched in full, except in a repaired call for which the healing
/// policy clamps a size; each size has an answer of its own.
pub proof fn law_searched_block_sizes(rt: Runtime, hay_len: usize, needle_len: usize)
    ensures
        rt.strict || !(rt.heals || rt.action is Repair) ==> memmem_lens(rt, hay_len, needle_len)
            == (hay_len, needle_len),
        !(rt.clamp is ClampSize) ==> memmem_lens(rt, hay_len, needle_len).0 == hay_len,
        !(rt.needle_clamp is ClampSize) ==> memmem_lens(rt, hay_len, needle_len).1 == needle_len,
        !rt.strict && (rt.heals || rt.action is Repair) && rt.clamp is ClampSize && hay_len > 0
            ==> memmem_lens(rt, hay_len, needle_len).0 == rt.clamp->clamped,
        !rt.strict && (rt.heals || rt.action is Repair) && rt.needle_clamp is ClampSize
            ==> memmem_lens(rt, hay_len, needle_len).1 == rt.needle_clamp->clamped,
        rt.raw() ==> forall|p: Ptr| #[trigger] strstr_bound(rt, p) is None,
        !rt.raw() ==> forall|p: Ptr| #[trigger] strstr_bound(rt, p) == p.remaining,
{
}

/// A search for a string that is strict leaves no trace. Another one asks the
/// policy once, to read at the string that is searched; it is adverse where it is
/// denied, or where one of the strings has no end in its allocation.
pub proof fn law_trace_of_a_string_search(m: Seq<u8>, rt: Runtime, hay: Ptr, needle: Ptr)
    requires
        hay.addr != 0,
        needle.addr != 0,
    ensures
        ({
            let q = Query {
                addr: hay.addr,
                len: 0,
                write: false,
                untracked: hay.remaining is None && needle.remaining is None,
            };
            let cut = !c_ended(m, hay.at(), hay.remaining) || !c_ended(
                m,
                needle.at(),
                needle.remaining,
            );
            let ev = strstr_events(m, rt, hay, needle);
            let folded = strcasestr_events(m, rt, hay, needle);
            &&& rt.strict ==> ev.len() == 0 && folded.len() == 0
            &&& rt.raw() ==> ev.len() == 0
            &&& !rt.strict && !rt.raw() ==> asks(ev, q)
            &&& !rt.strict && !rt.raw() && rt.action is Deny ==> verdict(ev) == Some(true)
                && !healed(ev)
            &&& !rt.strict && !rt.raw() && !(rt.action is Deny) ==> verdict(ev) == Some(cut)
                && healed(ev) == cut
            &&& !rt.strict ==> asks(folded, q) && verdict(folded) == Some(rt.action is Deny || cut)
        }),
{
}

/// A search in a block that is strict, or for nothing, or in nothing, leaves no
/// trace. Another one asks the policy once, to read the block; it is adverse where
/// it is denied, or where the healing policy clamps the block.
pub proof fn law_trace_of_a_block_in_a_block(
    rt: Runtime,
    hay: Ptr,
    hay_len: usize,
    needle: Ptr,
    needle_len: usize,
)
    requires
        hay.addr != 0,
        needle.addr != 0,
    ensures
        ({
            let ev = memmem_events(rt, hay, hay_len, needle, needle_len);
            &&& rt.strict || needle_len == 0 || hay_len == 0 ==> ev.len() == 0
            &&& !rt.strict && needle_len > 0 && hay_len > 0 ==> asks(
                ev,
                Query {
                    addr: hay.addr,
                    len: hay_len,
                    write: false,
                    untracked: hay.remaining is None && needle.remaining is None,
                },
            ) && verdict(ev) == Some(
                rt.action is Deny || (rt.clamp is ClampSize && (rt.heals || rt.action is Repair)),
            )
        }),
{
}

/// A search goes over the bytes up to the end of what it found, or over all of
/// them, and in any case over as many as the sought string has; an empty string
/// costs one.
pub proof fn law_searched_bytes(h: Seq<u8>, n: Seq<u8>)
    requires
        n.len() > 0,
    ensures
        first_occurrence(h, n, false) matches Some(i) ==> strstr_work(h, n) == i + n.len(),
        first_occurrence(h, n, false) is None && h.len() >= n.len() ==> strstr_work(h, n)
            == h.len(),
        first_occurrence(h, n, false) is None && h.len() < n.len() ==> strstr_work(h, n)
            == n.len(),
        strstr_work(h, Seq::<u8>::empty()) == 1,
{
    law_found_at_the_first_place(h, n, false, 0);
}

/// The sought string of a bounded search is its bytes up to the NUL, as its length
/// is taken; a length that the policy denies is zero, and a call that does not ask
/// the policy is not denied.
pub proof fn law_sought_string_length(m: Seq<u8>, rt: Runtime, needle: Ptr)
    ensures
        rt.action is Deny && !rt.raw() && !rt.strict && (rt.heals || needle.remaining is Some)
            ==> strnstr_needle(m, rt, needle) == 0,
        !(rt.action is Deny) || rt.raw() || rt.strict || (!rt.heals && needle.remaining is None)
            ==> strnstr_needle(m, rt, needle) == c_len(
            m,
            needle.at(),
            strlen_bound(rt, needle),
        ),
{
}

} // verus!
