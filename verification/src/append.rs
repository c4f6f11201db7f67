//! Appending one string to another.
use vstd::prelude::*;
use crate::copy::{cut_note, fused_strcpy_bytes, fused_strncpy_prefix, store_fitted, store_payload};
use crate::membrane::{
    ask_two,
    asks,
    clamp_destination_size_for_repair,
    dest_limit,
    healed,
    report,
    truncation,
    verdict,
    CheckStage,
    Cost,
    Event,
    Membrane,
    Query,
    Runtime,
};
use crate::memory::{apart, block, mapped, put, sat_sum, Memory, Ptr};
use crate::scan::{
    c_bytes,
    c_ended,
    c_len,
    extent,
    has_nul,
    is_nul,
    law_length_is_the_first_nul,
    law_string_bytes,
    lemma_c_len,
    lemma_c_len_is,
    lemma_find,
    readable,
    region,
    scan_c_string,
};
use crate::text::c_text;

verus! {

/// How many of `len` bytes are appended to the string at `dst` under a bound.
pub open spec fn append_room(m: Seq<u8>, dst: int, bound: Option<usize>, len: int) -> int {
    match bound {
        Some(l) => if !c_ended(m, dst, bound) {
            0
        } else if len < l - c_len(m, dst, bound) {
            len
        } else {
            l - c_len(m, dst, bound) - 1
        },
        None => len,
    }
}

/// The memory after `b` was appended to the string at `dst` under a bound: cut
/// to the room that is left, or, where the string does not end before the bound,
/// with a NUL in the bound's last byte.
pub open spec fn appended(m: Seq<u8>, dst: int, bound: Option<usize>, b: Seq<u8>) -> Seq<u8> {
    if c_ended(m, dst, bound) {
        put(
            m,
            dst + c_len(m, dst, bound),
            b.take(append_room(m, dst, bound, b.len() as int)).push(0),
        )
    } else if bound is Some && bound->Some_0 > 0 {
        m.update(dst + bound->Some_0 - 1, 0)
    } else {
        m
    }
}

/// The bytes from `dst` to behind the last one written.
pub open spec fn append_work(m: Seq<u8>, dst: int, bound: Option<usize>, len: int) -> int {
    if c_ended(m, dst, bound) {
        c_len(m, dst, bound) + append_room(m, dst, bound, len) + 1
    } else if bound is Some {
        bound->Some_0 as int
    } else {
        0
    }
}

/// Memory for appending `len` bytes at `src`, of which `span` bytes are read: what
/// is appended does not land on them.
pub open spec fn append_ready(
    m: Seq<u8>,
    dst: int,
    bound: Option<usize>,
    src: int,
    len: int,
    span: int,
) -> bool {
    &&& readable(m, dst, bound)
    &&& mapped(m, dst, append_work(m, dst, bound, len))
    &&& mapped(m, src, len)
    &&& c_ended(m, dst, bound) ==> apart(
        dst + c_len(m, dst, bound),
        append_room(m, dst, bound, len) + 1,
        src,
        span,
    )
}

/// Appends `len` bytes at `src` to the string at `dst` under a bound. Returns the
/// bytes to behind the last one written, and how many were appended; `None` for
/// those where the string does not end before the bound.
fn append_payload(
    mem: &mut Memory,
    dst: usize,
    bound: Option<usize>,
    src: usize,
    len: usize,
) -> (r: (usize, Option<usize>))
    requires
        append_ready(old(mem)@, dst as int, bound, src as int, len as int, len as int),
    ensures
        final(mem)@ == appended(
            old(mem)@,
            dst as int,
            bound,
            block(old(mem)@, src as int, len as int),
        ),
        r.0 == append_work(old(mem)@, dst as int, bound, len as int),
        match r.1 {
            Some(k) => c_ended(old(mem)@, dst as int, bound) && k == append_room(
                old(mem)@,
                dst as int,
                bound,
                len as int,
            ),
            None => !c_ended(old(mem)@, dst as int, bound),
        },
{
    let size: usize = mem.size();
    let ghost m = mem@;
    let ghost b = block(m, src as int, len as int);
    proof {
        lemma_c_len(m, dst as int, bound);
    }
    let (dst_len, ended) = scan_c_string(mem, dst, bound);
    if !ended {
        match bound {
            Some(limit) => {
                if limit > 0 {
                    mem.store(dst + (limit - 1), 0);
                }
                return (limit, None);
            },
            None => {},
        }
    }
    let copied: usize = match bound {
        Some(limit) => if len < limit - dst_len {
            len
        } else {
            limit - dst_len - 1
        },
        None => len,
    };
    store_payload(mem, dst + dst_len, src, copied);
    assert(block(m, src as int, copied as int) =~= b.take(copied as int));
    (dst_len + copied + 1, Some(copied))
}

/// The record of an append that was cut, in a call that asked for `requested`
/// bytes of which `len` were there, with `more` behind them.
pub open spec fn append_note(
    m: Seq<u8>,
    dst: int,
    bound: Option<usize>,
    len: int,
    more: bool,
    requested: usize,
) -> Seq<Event> {
    if !c_ended(m, dst, bound) {
        match bound {
            Some(l) => if l == 0 {
                seq![truncation(requested, 0)]
            } else {
                seq![truncation(l, (l - 1) as usize)]
            },
            None => seq![],
        }
    } else if more || append_room(m, dst, bound, len) < len {
        seq![truncation(requested, append_room(m, dst, bound, len) as usize)]
    } else {
        seq![]
    }
}

/// What `strcat` does with the runtime.
pub open spec fn strcat_events(m: Seq<u8>, rt: Runtime, dst: Ptr, src: Ptr) -> Seq<Event> {
    if dst.null() || src.null() {
        seq![rt.outcome_two(dst, src, CheckStage::Null)]
    } else if rt.strict {
        seq![]
    } else if rt.denies() {
        seq![
            ask_two(dst, src, 0, true),
            rt.outcome_two(dst, src, CheckStage::Arena),
            report(Cost::Flat(8), true),
        ]
    } else {
        let len = c_len(m, src.at(), rt.bound(src));
        let note = append_note(
            m,
            dst.at(),
            rt.bound(dst),
            len,
            !c_ended(m, src.at(), rt.bound(src)),
            (len + 1) as usize,
        );
        seq![ask_two(dst, src, 0, true)] + note + seq![
            report(
                Cost::Scaled(9, append_work(m, dst.at(), rt.bound(dst), len) as usize),
                note.len() > 0,
            ),
            rt.outcome_two(dst, src, CheckStage::Bounds),
        ]
    }
}

/// Appends the string at `src` to the one at `dst`. Returns `dst`; null where
/// the call is denied.
///
/// A repairing call reads no further than the source's allocation, appends what
/// fits in the destination's, and ends it with a NUL.
pub fn strcat(mem: &mut Memory, dst: Ptr, src: Ptr, cx: &mut Membrane) -> (r: usize)
    requires
        !dst.null() && !src.null() && old(cx).rt.serves() ==> readable(
            old(mem)@,
            src.at(),
            old(cx).rt.reach(src),
        ) && append_ready(
            old(mem)@,
            dst.at(),
            old(cx).rt.reach(dst),
            src.at(),
            c_len(old(mem)@, src.at(), old(cx).rt.reach(src)),
            region(old(mem)@, src.at(), old(cx).rt.reach(src)),
        ),
    ensures
        r == if dst.null() || src.null() || old(cx).rt.serves() {
            dst.addr
        } else {
            0
        },
        final(mem)@ == if dst.null() || src.null() || !old(cx).rt.serves() {
            old(mem)@
        } else {
            appended(
                old(mem)@,
                dst.at(),
                old(cx).rt.reach(dst),
                c_bytes(old(mem)@, src.at(), old(cx).rt.reach(src)),
            )
        },
        final(cx).follows(*old(cx), strcat_events(old(mem)@, old(cx).rt, dst, src)),
{
    let size: usize = mem.size();
    let ghost m = mem@;
    if !dst.is_null() && !src.is_null() && cx.rt.strict {
        proof {
            lemma_c_len(m, src.at(), None);
            lemma_c_len(m, dst.at(), None);
            let b = c_bytes(m, src.at(), None);
            assert(b.take(b.len() as int) =~= b);
        }
        let (dst_len, _ended) = scan_c_string(mem, dst.addr, None);
        fused_strcpy_bytes(mem, dst.addr + dst_len, src.addr);
        return dst.addr;
    }
    if dst.is_null() || src.is_null() {
        cx.outcome_two(dst, src, CheckStage::Null);
        return dst.addr;
    }
    strcat_validating(mem, dst, src, cx)
}

fn strcat_validating(mem: &mut Memory, dst: Ptr, src: Ptr, cx: &mut Membrane) -> (r: usize)
    requires
        !old(cx).rt.strict,
        !dst.null() && !src.null(),
        !old(cx).rt.denies() ==> readable(old(mem)@, src.at(), old(cx).rt.bound(src))
            && append_ready(
            old(mem)@,
            dst.at(),
            old(cx).rt.bound(dst),
            src.at(),
            c_len(old(mem)@, src.at(), old(cx).rt.bound(src)),
            region(old(mem)@, src.at(), old(cx).rt.bound(src)),
        ),
    ensures
        r == if old(cx).rt.denies() {
            0
        } else {
            dst.addr
        },
        final(mem)@ == if old(cx).rt.denies() {
            old(mem)@
        } else {
            appended(
                old(mem)@,
                dst.at(),
                old(cx).rt.bound(dst),
                c_bytes(old(mem)@, src.at(), old(cx).rt.bound(src)),
            )
        },
        final(cx).follows(*old(cx), strcat_events(old(mem)@, old(cx).rt, dst, src)),
{
    let size: usize = mem.size();
    let ghost m = mem@;
    if !cx.ask_two(dst, src, 0, true) {
        cx.outcome_two(dst, src, CheckStage::Arena);
        cx.observe(Cost::Flat(8), true);
        return 0;
    }
    let dst_bound: Option<usize> = cx.bound(dst);
    let src_bound: Option<usize> = cx.bound(src);
    let (src_len, src_ended) = scan_c_string(mem, src.addr, src_bound);
    proof {
        lemma_c_len(m, src.at(), src_bound);
        lemma_c_len(m, dst.at(), dst_bound);
    }
    let (work, copied) = append_payload(mem, dst.addr, dst_bound, src.addr, src_len);
    let cut: bool = note_append(cx, dst_bound, copied, src_len, !src_ended, src_len + 1);
    cx.observe(Cost::Scaled(9, work), cut);
    cx.outcome_two(dst, src, CheckStage::Bounds);
    dst.addr
}

/// Records an append that was cut, and tells whether it was.
fn note_append(
    cx: &mut Membrane,
    bound: Option<usize>,
    copied: Option<usize>,
    len: usize,
    more: bool,
    requested: usize,
) -> (r: bool)
    requires
        copied is None ==> bound is Some,
        copied is Some ==> copied->Some_0 <= len,
    ensures
        ({
            let note = match copied {
                None => if bound->Some_0 == 0 {
                    seq![truncation(requested, 0)]
                } else {
                    seq![truncation(bound->Some_0, (bound->Some_0 - 1) as usize)]
                },
                Some(k) => if more || k < len {
                    seq![truncation(requested, k)]
                } else {
                    seq![]
                },
            };
            final(cx).follows(*old(cx), note) && r == (note.len() > 0)
        }),
{
    match copied {
        None => {
            match bound {
                Some(limit) => if limit == 0 {
                    cx.record_truncation(requested, 0);
                } else {
                    cx.record_truncation(limit, limit - 1);
                },
                None => {},
            }
            true
        },
        Some(k) => {
            if more || k < len {
                cx.record_truncation(requested, k);
                true
            } else {
                false
            }
        },
    }
}

/// How far `strncat` reads its source.
pub open spec fn strncat_bound(rt: Runtime, src: Ptr, n: usize) -> usize {
    match rt.reach(src) {
        Some(b) => if b < n {
            b
        } else {
            n
        },
        None => n,
    }
}

/// The source's allocation ended before its string, and before `n` bytes.
pub open spec fn strncat_starved(m: Seq<u8>, rt: Runtime, src: Ptr, n: usize) -> bool {
    !c_ended(m, src.at(), Some(strncat_bound(rt, src, n))) && strncat_bound(rt, src, n) < n
}

/// What `strncat` does with the runtime.
pub open spec fn strncat_events(m: Seq<u8>, rt: Runtime, dst: Ptr, src: Ptr, n: usize) -> Seq<
    Event,
> {
    if rt.strict {
        seq![]
    } else if dst.null() || src.null() {
        seq![rt.outcome_two(dst, src, CheckStage::Null)]
    } else if n == 0 {
        seq![]
    } else if rt.denies() {
        seq![
            ask_two(dst, src, n, true),
            rt.outcome_two(dst, src, CheckStage::Arena),
            report(Cost::Scaled(9, n), true),
        ]
    } else {
        let len = c_len(m, src.at(), Some(strncat_bound(rt, src, n)));
        let note = append_note(
            m,
            dst.at(),
            rt.bound(dst),
            len,
            strncat_starved(m, rt, src, n),
            sat_sum(n, 1),
        );
        seq![ask_two(dst, src, n, true)] + note + seq![
            report(
                Cost::Scaled(9, append_work(m, dst.at(), rt.bound(dst), len) as usize),
                note.len() > 0,
            ),
            rt.outcome_two(dst, src, CheckStage::Bounds),
        ]
    }
}

/// Appends the string at `src`, or its first `n` bytes, to the one at `dst`, with
/// a NUL. Returns `dst`; null where the call is denied.
pub fn strncat(mem: &mut Memory, dst: Ptr, src: Ptr, n: usize, cx: &mut Membrane) -> (r: usize)
    requires
        !dst.null() && !src.null() && n != 0 && old(cx).rt.serves() ==> readable(
            old(mem)@,
            src.at(),
            Some(strncat_bound(old(cx).rt, src, n)),
        ) && append_ready(
            old(mem)@,
            dst.at(),
            old(cx).rt.reach(dst),
            src.at(),
            c_len(old(mem)@, src.at(), Some(strncat_bound(old(cx).rt, src, n))),
            region(old(mem)@, src.at(), Some(strncat_bound(old(cx).rt, src, n))),
        ),
    ensures
        r == if dst.null() || src.null() || n == 0 || old(cx).rt.serves() {
            dst.addr
        } else {
            0
        },
        final(mem)@ == if dst.null() || src.null() || n == 0 || !old(cx).rt.serves() {
            old(mem)@
        } else {
            appended(
                old(mem)@,
                dst.at(),
                old(cx).rt.reach(dst),
                c_bytes(old(mem)@, src.at(), Some(strncat_bound(old(cx).rt, src, n))),
            )
        },
        final(cx).follows(*old(cx), strncat_events(old(mem)@, old(cx).rt, dst, src, n)),
{
    let size: usize = mem.size();
    let ghost m = mem@;
    if cx.rt.strict {
        if dst.is_null() || src.is_null() || n == 0 {
            return dst.addr;
        }
        proof {
            lemma_c_len(m, src.at(), Some(n));
            lemma_c_len(m, dst.at(), None);
            let b = c_bytes(m, src.at(), Some(n));
            assert(b.take(b.len() as int) =~= b);
        }
        let (dst_len, _ended) = scan_c_string(mem, dst.addr, None);
        let copied: usize = fused_strncpy_prefix(mem, dst.addr + dst_len, src.addr, n);
        mem.store(dst.addr + dst_len + copied, 0);
        assert(mem@ =~= appended(m, dst.at(), None, c_bytes(m, src.at(), Some(n))));
        return dst.addr;
    }
    strncat_validating(mem, dst, src, n, cx)
}

#[verifier::rlimit(30)]
fn strncat_validating(mem: &mut Memory, dst: Ptr, src: Ptr, n: usize, cx: &mut Membrane) -> (r:
    usize)
    requires
        !old(cx).rt.strict,
        !dst.null() && !src.null() && n != 0 && !old(cx).rt.denies() ==> readable(
            old(mem)@,
            src.at(),
            Some(strncat_bound(old(cx).rt, src, n)),
        ) && append_ready(
            old(mem)@,
            dst.at(),
            old(cx).rt.bound(dst),
            src.at(),
            c_len(old(mem)@, src.at(), Some(strncat_bound(old(cx).rt, src, n))),
            region(old(mem)@, src.at(), Some(strncat_bound(old(cx).rt, src, n))),
        ),
    ensures
        r == if dst.null() || src.null() || n == 0 || !old(cx).rt.denies() {
            dst.addr
        } else {
            0
        },
        final(mem)@ == if dst.null() || src.null() || n == 0 || old(cx).rt.denies() {
            old(mem)@
        } else {
            appended(
                old(mem)@,
                dst.at(),
                old(cx).rt.bound(dst),
                c_bytes(old(mem)@, src.at(), Some(strncat_bound(old(cx).rt, src, n))),
            )
        },
        final(cx).follows(*old(cx), strncat_events(old(mem)@, old(cx).rt, dst, src, n)),
{
    let size: usize = mem.size();
    let ghost m = mem@;
    if dst.is_null() || src.is_null() {
        cx.outcome_two(dst, src, CheckStage::Null);
        return dst.addr;
    }
    if n == 0 {
        return dst.addr;
    }
    if !cx.ask_two(dst, src, n, true) {
        cx.outcome_two(dst, src, CheckStage::Arena);
        cx.observe(Cost::Scaled(9, n), true);
        return 0;
    }
    let dst_bound: Option<usize> = cx.bound(dst);
    let src_bound: usize = match cx.bound(src) {
        Some(b) => if b < n {
            b
        } else {
            n
        },
        None => n,
    };
    let (src_len, src_ended) = scan_c_string(mem, src.addr, Some(src_bound));
    proof {
        lemma_c_len(m, src.at(), Some(src_bound));
        lemma_c_len(m, dst.at(), dst_bound);
    }
    let (work, copied) = append_payload(mem, dst.addr, dst_bound, src.addr, src_len);
    let starved: bool = !src_ended && src_bound < n;
    let cut: bool = note_append(cx, dst_bound, copied, src_len, starved, n.saturating_add(1));
    cx.observe(Cost::Scaled(9, work), cut);
    cx.outcome_two(dst, src, CheckStage::Bounds);
    dst.addr
}

/// The bytes that `strlcat` may use at `dst`.
pub open spec fn strlcat_limit(rt: Runtime, dst: Ptr, dstsize: usize) -> usize {
    if rt.strict {
        dstsize
    } else {
        dest_limit(dstsize, dst.remaining, rt.repairs())
    }
}

/// The memory after `b` was appended to the string in the `limit` bytes at `dst`:
/// as it was where no string ends there.
pub open spec fn concatenated(m: Seq<u8>, dst: int, limit: usize, b: Seq<u8>) -> Seq<u8> {
    if c_ended(m, dst, Some(limit)) {
        put(
            m,
            dst + c_len(m, dst, Some(limit)),
            c_text(b, limit - c_len(m, dst, Some(limit))),
        )
    } else {
        m
    }
}

/// What `strlcat` copies of `len` bytes at `src` does not land on itself.
pub open spec fn concat_apart(m: Seq<u8>, dst: int, limit: usize, src: int, len: int) -> bool {
    let k = append_room(m, dst, Some(limit), len);
    c_ended(m, dst, Some(limit)) ==> apart(dst + c_len(m, dst, Some(limit)), k, src, k)
}

/// What `strlcat` does with the runtime.
pub open spec fn strlcat_events(
    m: Seq<u8>,
    rt: Runtime,
    dst: Ptr,
    src: Ptr,
    dstsize: usize,
) -> Seq<Event> {
    if dst.null() || src.null() || dstsize == 0 {
        seq![rt.outcome_two(dst, src, CheckStage::Null)]
    } else if rt.strict {
        seq![]
    } else if rt.denies() {
        seq![
            ask_two(dst, src, dstsize, true),
            rt.outcome_two(dst, src, CheckStage::Arena),
            report(Cost::Scaled(7, dstsize), true),
        ]
    } else {
        let limit = strlcat_limit(rt, dst, dstsize);
        let span = (c_len(m, src.at(), rt.bound(src)) + limit) as usize;
        seq![ask_two(dst, src, dstsize, true)] + cut_note(dstsize, limit) + seq![
            rt.outcome_two(dst, src, CheckStage::Bounds),
            report(Cost::Scaled(7, span), rt.bound(src) is Some || limit < dstsize),
        ]
    }
}

/// Appends the string at `src` to the one in the `dstsize` bytes at `dst`, cut to
/// fit with its NUL. Returns the length that the whole string would have had,
/// counting `dst` as full where no string ends in it; `0` for a null pointer or a
/// denied call.
pub fn strlcat(mem: &mut Memory, dst: Ptr, src: Ptr, dstsize: usize, cx: &mut Membrane) -> (r:
    usize)
    requires
        !src.null() && !dst.null() && dstsize == 0 ==> readable(
            old(mem)@,
            src.at(),
            src.remaining,
        ),
        !src.null() && !dst.null() && dstsize != 0 && old(cx).rt.serves() ==> {
            let m = old(mem)@;
            let limit = strlcat_limit(old(cx).rt, dst, dstsize);
            let len = c_len(m, src.at(), old(cx).rt.reach(src));
            &&& readable(m, src.at(), old(cx).rt.reach(src))
            &&& mapped(m, dst.at(), limit as int)
            &&& concat_apart(m, dst.at(), limit, src.at(), len)
        },
    ensures
        dst.null() || src.null() ==> r == 0 && final(mem)@ == old(mem)@,
        !src.null() && !dst.null() && dstsize == 0 ==> r == c_len(
            old(mem)@,
            src.at(),
            src.remaining,
        ) && final(mem)@ == old(mem)@,
        !src.null() && !dst.null() && dstsize != 0 && !old(cx).rt.serves() ==> r == 0 && final(mem)@
            == old(mem)@,
        !src.null() && !dst.null() && dstsize != 0 && old(cx).rt.serves() ==> {
            let m = old(mem)@;
            let limit = strlcat_limit(old(cx).rt, dst, dstsize);
            let b = c_bytes(m, src.at(), old(cx).rt.reach(src));
            &&& r == c_len(m, dst.at(), Some(limit)) + b.len()
            &&& final(mem)@ == concatenated(m, dst.at(), limit, b)
        },
        final(cx).follows(*old(cx), strlcat_events(old(mem)@, old(cx).rt, dst, src, dstsize)),
{
    let size: usize = mem.size();
    let ghost m = mem@;
    if dst.is_null() || src.is_null() {
        cx.outcome_two(dst, src, CheckStage::Null);
        return 0;
    }
    if dstsize == 0 {
        let (src_len, _ended) = scan_c_string(mem, src.addr, src.remaining);
        cx.outcome_two(dst, src, CheckStage::Null);
        return src_len;
    }
    if cx.rt.strict {
        let (src_len, _ended) = scan_c_string(mem, src.addr, None);
        proof {
            lemma_c_len(m, src.at(), None);
        }
        return concat_within(mem, dst.addr, dstsize, src.addr, src_len);
    }
    if !cx.ask_two(dst, src, dstsize, true) {
        cx.outcome_two(dst, src, CheckStage::Arena);
        cx.observe(Cost::Scaled(7, dstsize), true);
        return 0;
    }
    let repair: bool = cx.repairs();
    let src_bound: Option<usize> = cx.bound(src);
    let dst_bound: Option<usize> = cx.bound(dst);
    let (limit, cut) = clamp_destination_size_for_repair(dstsize, dst_bound, repair);
    if cut {
        cx.record_truncation(dstsize, limit);
    }
    let (src_len, _ended) = scan_c_string(mem, src.addr, src_bound);
    proof {
        lemma_c_len(m, src.at(), src_bound);
    }
    let total: usize = concat_within(mem, dst.addr, limit, src.addr, src_len);
    cx.outcome_two(dst, src, CheckStage::Bounds);
    cx.observe(Cost::Scaled(7, src_len + limit), src_bound.is_some() || cut);
    total
}

fn concat_within(mem: &mut Memory, dst: usize, limit: usize, src: usize, len: usize) -> (r: usize)
    requires
        mapped(old(mem)@, dst as int, limit as int),
        mapped(old(mem)@, src as int, len as int),
        concat_apart(old(mem)@, dst as int, limit, src as int, len as int),
    ensures
        r == c_len(old(mem)@, dst as int, Some(limit)) + len,
        final(mem)@ == concatenated(
            old(mem)@,
            dst as int,
            limit,
            block(old(mem)@, src as int, len as int),
        ),
{
    let size: usize = mem.size();
    proof {
        lemma_c_len(mem@, dst as int, Some(limit));
    }
    let (dest_len, ended) = scan_c_string(mem, dst, Some(limit));
    if ended {
        store_fitted(mem, dst + dest_len, limit - dest_len, src, len);
    }
    dest_len + len
}

/// Appending puts the two strings together: what reads back at `dst` is the old
/// string and the new one behind it.
pub proof fn law_strcat_concatenates(m: Seq<u8>, d: int, b: Seq<u8>)
    requires
        readable(m, d, None),
        mapped(m, d, c_len(m, d, None) + b.len() + 1),
        !b.contains(0),
    ensures
        c_bytes(appended(m, d, None, b), d, None) == c_bytes(m, d, None) + b,
{
    lemma_c_len(m, d, None);
    let n = c_len(m, d, None);
    let m2 = appended(m, d, None, b);
    assert(b.take(b.len() as int) =~= b);
    assert(m2[d + n + b.len()] == 0);
    assert(has_nul(m2, d));
    assert forall|j: int| d <= j < d + n + b.len() implies #[trigger] m2[j] != 0 by {
        if j >= d + n {
            assert(m2[j] == b[j - d - n]);
        } else {
            assert(m2[j] == m[j]);
        }
    }
    lemma_c_len_is(m2, d, None, n + b.len());
    assert(c_bytes(m2, d, None) =~= c_bytes(m, d, None) + b);
}

/// A bounded append leaves a string that ends inside its bound, and touches
/// nothing behind it.
pub proof fn law_bounded_append_ends(m: Seq<u8>, d: int, l: usize, b: Seq<u8>)
    requires
        l > 0,
        mapped(m, d, l as int),
    ensures
        c_ended(appended(m, d, Some(l), b), d, Some(l)),
        forall|j: int|
            d + l <= j < m.len() ==> #[trigger] appended(m, d, Some(l), b)[j] == m[j],
        appended(m, d, Some(l), b).len() == m.len(),
{
    let m2 = appended(m, d, Some(l), b);
    lemma_c_len(m, d, Some(l));
    lemma_c_len(m2, d, Some(l));
    let z = if c_ended(m, d, Some(l)) {
        d + c_len(m, d, Some(l)) + append_room(m, d, Some(l), b.len() as int)
    } else {
        d + l - 1
    };
    assert(m2[z] == 0);
    if !c_ended(m2, d, Some(l)) {
        assert(m2[z] != 0);
    }
}

/// Where a string is put at the end of another, the two read as one.
proof fn lemma_joined_string(m: Seq<u8>, d: int, bound: Option<usize>, t: Seq<u8>)
    requires
        0 <= d <= m.len(),
        c_ended(m, d, bound),
        !t.contains(0),
        mapped(m, d, c_len(m, d, bound) + t.len() + 1),
        bound is Some ==> c_len(m, d, bound) + t.len() < bound->Some_0,
    ensures
        ({
            let after = put(m, d + c_len(m, d, bound), t.push(0));
            &&& c_bytes(after, d, bound) == c_bytes(m, d, bound) + t
            &&& c_ended(after, d, bound)
        }),
{
    let n = c_len(m, d, bound);
    let b = c_bytes(m, d, bound);
    let after = put(m, d + n, t.push(0));
    law_string_bytes(m, d, bound, 0);
    lemma_find(m, d, extent(m, d, bound), is_nul());
    let k = n + t.len();
    assert forall|j: int| d <= j < d + k implies #[trigger] after[j] != 0 by {
        if j < d + n {
            assert(after[j] == m[j]);
            assert(!is_nul()(m[j]));
        } else {
            assert(after[j] == t[j - d - n]);
            assert(t.contains(t[j - d - n]));
        }
    }
    assert(after[d + k] == 0);
    law_length_is_the_first_nul(after, d, bound, k);
    assert(c_bytes(after, d, bound) =~= b + t) by {
        assert forall|i: int| 0 <= i < k implies c_bytes(after, d, bound)[i] == (b + t)[i] by {
            assert(c_bytes(after, d, bound)[i] == after[d + i]);
        }
    }
}

/// A string that is appended within a bound reads as the two together, cut to
/// leave room for the NUL. Where the string has no end within the bound, it is cut
/// there and nothing is appended.
pub proof fn law_bounded_append_reads_back(m: Seq<u8>, d: int, l: usize, b: Seq<u8>)
    requires
        l > 0,
        mapped(m, d, l as int),
        !b.contains(0),
    ensures
        ({
            let x = c_bytes(m, d, Some(l));
            let both = x + b;
            c_bytes(appended(m, d, Some(l), b), d, Some(l)) == if !c_ended(m, d, Some(l)) {
                x.take(l - 1)
            } else if both.len() < l {
                both
            } else {
                both.take(l - 1)
            }
        }),
{
    let x = c_bytes(m, d, Some(l));
    law_string_bytes(m, d, Some(l), 0);
    lemma_find(m, d, extent(m, d, Some(l)), is_nul());
    if c_ended(m, d, Some(l)) {
        let k = append_room(m, d, Some(l), b.len() as int);
        let t = b.take(k);
        assert(!t.contains(0)) by {
            if t.contains(0) {
                let i = choose|i: int| 0 <= i < t.len() && t[i] == 0;
                assert(b.contains(b[i]));
            }
        }
        lemma_joined_string(m, d, Some(l), t);
        let both = x + b;
        if both.len() < l {
            assert(t =~= b);
        } else {
            assert(x + t =~= both.take(l - 1));
        }
    } else {
        let after = m.update(d + l - 1, 0);
        assert(x.len() == l);
        assert forall|j: int| d <= j < d + l - 1 implies #[trigger] after[j] != 0 by {
            assert(!is_nul()(m[j]));
        }
        law_length_is_the_first_nul(after, d, Some(l), l - 1);
        assert(c_bytes(after, d, Some(l)) =~= x.take(l - 1));
    }
}

/// What is appended is written behind the string: the bytes of the string, those
/// in front of it and those behind the new NUL stay as they were.
pub proof fn law_append_writes_behind_the_string(
    m: Seq<u8>,
    d: int,
    bound: Option<usize>,
    b: Seq<u8>,
    j: int,
)
    requires
        0 <= d <= m.len(),
        c_ended(m, d, bound),
        0 <= j < m.len(),
    ensures
        j < d + c_len(m, d, bound) || j > d + c_len(m, d, bound) + b.len() ==> appended(
            m,
            d,
            bound,
            b,
        )[j] == m[j],
{
    law_string_bytes(m, d, bound, 0);
}

/// A string that is concatenated within a size reads as the two together, cut to
/// leave room for the NUL; where the string has no end within the size, nothing
/// changes.
pub proof fn law_concatenation_reads_back(m: Seq<u8>, d: int, limit: usize, b: Seq<u8>)
    requires
        mapped(m, d, limit as int),
        !b.contains(0),
    ensures
        ({
            let x = c_bytes(m, d, Some(limit));
            let both = x + b;
            let after = concatenated(m, d, limit, b);
            &&& !c_ended(m, d, Some(limit)) ==> after == m
            &&& c_ended(m, d, Some(limit)) ==> c_bytes(after, d, Some(limit)) == if both.len()
                < limit {
                both
            } else {
                both.take(limit - 1)
            }
        }),
{
    let x = c_bytes(m, d, Some(limit));
    law_string_bytes(m, d, Some(limit), 0);
    lemma_find(m, d, extent(m, d, Some(limit)), is_nul());
    if c_ended(m, d, Some(limit)) {
        let n = c_len(m, d, Some(limit));
        let t = if b.len() < limit - n {
            b
        } else {
            b.take(limit - n - 1)
        };
        assert(!t.contains(0)) by {
            if t.contains(0) {
                let i = choose|i: int| 0 <= i < t.len() && t[i] == 0;
                assert(b.contains(b[i]));
            }
        }
        lemma_joined_string(m, d, Some(limit), t);
        let both = x + b;
        if both.len() >= limit {
            assert(x + t =~= both.take(limit - 1));
        }
    }
}

/// No more bytes are appended than were asked for, nor, in a repaired call, than
/// the source's allocation holds; a size is cut to the allocation in the same way.
pub proof fn law_append_limits(rt: Runtime, p: Ptr, n: usize, k: usize)
    ensures
        k <= strncat_bound(rt, p, n) <==> k <= n && (!rt.strict && (rt.heals || rt.action is Repair)
            && p.remaining is Some ==> k <= p.remaining->Some_0),
        k <= strlcat_limit(rt, p, n) <==> k <= n && (!rt.strict && (rt.heals || rt.action is Repair)
            && p.remaining is Some ==> k <= p.remaining->Some_0),
{
}

/// An append that is strict leaves no trace. Another one between strings that are
/// there asks the policy once, to write at the destination; it is adverse where it
/// is denied, and where it is not, exactly where a repair is recorded: where the
/// destination has no end within its bound, the source has none, or not all of the
/// source fits.
pub proof fn law_trace_of_an_append(m: Seq<u8>, rt: Runtime, dst: Ptr, src: Ptr)
    requires
        dst.addr != 0,
        src.addr != 0,
        readable(m, dst.at(), rt.bound(dst)),
    ensures
        ({
            let ev = strcat_events(m, rt, dst, src);
            let len = c_len(m, src.at(), rt.bound(src));
            let cut = !c_ended(m, dst.at(), rt.bound(dst)) || !c_ended(
                m,
                src.at(),
                rt.bound(src),
            ) || append_room(m, dst.at(), rt.bound(dst), len) < len;
            &&& rt.strict ==> ev.len() == 0
            &&& !rt.strict ==> asks(
                ev,
                Query {
                    addr: dst.addr,
                    len: 0,
                    write: true,
                    untracked: dst.remaining is None && src.remaining is None,
                },
            )
            &&& !rt.strict && rt.action is Deny ==> verdict(ev) == Some(true) && !healed(ev)
            &&& !rt.strict && !(rt.action is Deny) ==> verdict(ev) == Some(cut) && healed(ev) == cut
        }),
{
    lemma_c_len(m, dst.at(), rt.bound(dst));
}

/// A sized append that is strict leaves no trace. Another one asks the policy
/// once, to write as many bytes as the destination holds; it is adverse where it
/// is denied, where the source is bounded, or where the size is cut, which is
/// recorded as a repair.
pub proof fn law_trace_of_a_sized_append(m: Seq<u8>, rt: Runtime, dst: Ptr, src: Ptr, n: usize)
    requires
        dst.addr != 0,
        src.addr != 0,
        n > 0,
    ensures
        ({
            let ev = strlcat_events(m, rt, dst, src, n);
            let cut = strlcat_limit(rt, dst, n) < n;
            &&& rt.strict ==> ev.len() == 0
            &&& !rt.strict ==> asks(
                ev,
                Query {
                    addr: dst.addr,
                    len: n,
                    write: true,
                    untracked: dst.remaining is None && src.remaining is None,
                },
            )
            &&& !rt.strict && rt.action is Deny ==> verdict(ev) == Some(true) && !healed(ev)
            &&& !rt.strict && !(rt.action is Deny) ==> verdict(ev) == Some(
                cut || rt.reach(src) is Some,
            ) && healed(ev) == cut
        }),
{
}

/// The bytes that an append goes over are those of the new string and its NUL, or
/// all of the bound where no NUL ends the old one.
pub proof fn law_append_goes_over_the_new_string(m: Seq<u8>, d: int, l: usize, b: Seq<u8>)
    requires
        l > 0,
        mapped(m, d, l as int),
        !b.contains(0),
    ensures
        c_ended(m, d, Some(l)) ==> append_work(m, d, Some(l), b.len() as int) == c_len(
            appended(m, d, Some(l), b),
            d,
            Some(l),
        ) + 1,
        !c_ended(m, d, Some(l)) ==> append_work(m, d, Some(l), b.len() as int) == l,
{
    law_bounded_append_reads_back(m, d, l, b);
    law_string_bytes(m, d, Some(l), 0);
    law_string_bytes(appended(m, d, Some(l), b), d, Some(l), 0);
    lemma_find(m, d, extent(m, d, Some(l)), is_nul());
}

/// All of a string is appended where there is room for it and its NUL, and else as
/// much as leaves room for the NUL.
pub proof fn law_append_room(m: Seq<u8>, d: int, l: usize, len: int)
    requires
        0 <= len,
    ensures
        append_room(m, d, None, len) == len,
        !c_ended(m, d, Some(l)) ==> append_room(m, d, Some(l), len) == 0,
        c_ended(m, d, Some(l)) && c_len(m, d, Some(l)) + len + 1 <= l ==> append_room(
            m,
            d,
            Some(l),
            len,
        ) == len,
        c_ended(m, d, Some(l)) && c_len(m, d, Some(l)) + len + 1 > l ==> c_len(m, d, Some(l))
            + append_room(m, d, Some(l), len) + 1 == l,
{
}

} // verus!
