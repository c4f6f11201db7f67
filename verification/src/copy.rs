//! Copying and appending strings.
use vstd::prelude::*;
use crate::membrane::{
    ask_two,
    asks,
    clamp_destination_size_for_repair,
    dest_limit,
    healed,
    report,
    truncation,
    verdict,
    CheckStage,
    Cost,
    Event,
    HealingAction,
    Membrane,
    Query,
    Runtime,
};
use crate::memory::{
    apart,
    block,
    filled,
    mapped,
    put,
    raw_memcpy_bytes,
    raw_memset_bytes,
    Memory,
    Ptr,
};
use crate::scan::{
    c_bytes,
    c_ended,
    c_len,
    has_nul,
    law_string_bytes,
    lemma_c_len,
    lemma_c_len_is,
    readable,
    region,
    scan_c_string,
    scan_c_string_nul_or_bound,
};
use crate::text::c_text;

verus! {

/// Copies the string at `src` with its NUL to `dst`, in one pass. Returns the
/// string's length.
pub fn fused_strcpy_bytes(mem: &mut Memory, dst: usize, src: usize) -> (r: usize)
    requires
        readable(old(mem)@, src as int, None),
        mapped(old(mem)@, dst as int, c_len(old(mem)@, src as int, None) + 1),
        apart(
            dst as int,
            c_len(old(mem)@, src as int, None) + 1,
            src as int,
            c_len(old(mem)@, src as int, None) + 1,
        ),
    ensures
        r == c_len(old(mem)@, src as int, None),
        final(mem)@ == put(
            old(mem)@,
            dst as int,
            c_bytes(old(mem)@, src as int, None).push(0),
        ),
{
    let size: usize = mem.size();
    let ghost m = mem@;
    let ghost len = c_len(m, src as int, None);
    proof {
        lemma_c_len(m, src as int, None);
    }
    let mut i: usize = 0;
    loop
        invariant
            m == old(mem)@,
            size == mem@.len(),
            size == m.len(),
            size <= usize::MAX / 2,
            i <= len,
            len == c_len(m, src as int, None),
            src + len < size,
            m[src + len] == 0,
            forall|j: int| src <= j < src + len ==> #[trigger] m[j] != 0,
            mapped(m, dst as int, len + 1),
            apart(dst as int, len + 1, src as int, len + 1),
            mem@ == put(m, dst as int, block(m, src as int, i as int)),
        decreases len - i,
    {
        let b: u8 = mem.load(src + i);
        assert(b == m[src + i]);
        mem.store(dst + i, b);
        if b == 0 {
            assert(mem@ =~= put(m, dst as int, c_bytes(m, src as int, None).push(0)));
            return i;
        }
        i += 1;
        assert(mem@ =~= put(m, dst as int, block(m, src as int, i as int)));
    }
}

/// Copies the string at `src`, or its first `n` bytes, to `dst` without a NUL.
/// Returns how many bytes were copied.
pub fn fused_strncpy_prefix(mem: &mut Memory, dst: usize, src: usize, n: usize) -> (r: usize)
    requires
        readable(old(mem)@, src as int, Some(n)),
        mapped(old(mem)@, dst as int, c_len(old(mem)@, src as int, Some(n))),
        apart(
            dst as int,
            c_len(old(mem)@, src as int, Some(n)),
            src as int,
            region(old(mem)@, src as int, Some(n)),
        ),
    ensures
        r == c_len(old(mem)@, src as int, Some(n)),
        final(mem)@ == put(old(mem)@, dst as int, c_bytes(old(mem)@, src as int, Some(n))),
{
    let size: usize = mem.size();
    let ghost m = mem@;
    let ghost len = c_len(m, src as int, Some(n));
    proof {
        lemma_c_len(m, src as int, Some(n));
    }
    let mut i: usize = 0;
    while i < n
        invariant
            m == old(mem)@,
            size == mem@.len(),
            size == m.len(),
            size <= usize::MAX / 2,
            i <= len,
            len == c_len(m, src as int, Some(n)),
            src + len <= size,
            len <= n,
            len < n ==> src + len < size && m[src + len] == 0,
            forall|j: int| src <= j < src + len ==> #[trigger] m[j] != 0,
            mapped(m, dst as int, len),
            apart(dst as int, len, src as int, region(m, src as int, Some(n))),
            mem@ == put(m, dst as int, block(m, src as int, i as int)),
        ensures
            i == len,
        decreases n - i,
    {
        let b: u8 = mem.load(src + i);
        assert(b == m[src + i]);
        if b == 0 {
            break;
        }
        mem.store(dst + i, b);
        i += 1;
        assert(mem@ =~= put(m, dst as int, block(m, src as int, i as int)));
    }
    assert(mem@ =~= put(m, dst as int, c_bytes(m, src as int, Some(n))));
    i
}

/// As [`fused_strcpy_bytes`].
pub fn bench_strcpy_fused(mem: &mut Memory, dst: usize, src: usize) -> (r: usize)
    requires
        readable(old(mem)@, src as int, None),
        mapped(old(mem)@, dst as int, c_len(old(mem)@, src as int, None) + 1),
        apart(
            dst as int,
            c_len(old(mem)@, src as int, None) + 1,
            src as int,
            c_len(old(mem)@, src as int, None) + 1,
        ),
    ensures
        r == c_len(old(mem)@, src as int, None),
        final(mem)@ == put(
            old(mem)@,
            dst as int,
            c_bytes(old(mem)@, src as int, None).push(0),
        ),
{
    fused_strcpy_bytes(mem, dst, src)
}

/// As [`fused_strcpy_bytes`], with a scan for the length before the copy.
pub fn bench_strcpy_two_pass(mem: &mut Memory, dst: usize, src: usize) -> (r: usize)
    requires
        readable(old(mem)@, src as int, None),
        mapped(old(mem)@, dst as int, c_len(old(mem)@, src as int, None) + 1),
        apart(
            dst as int,
            c_len(old(mem)@, src as int, None) + 1,
            src as int,
            c_len(old(mem)@, src as int, None) + 1,
        ),
    ensures
        r == c_len(old(mem)@, src as int, None),
        final(mem)@ == put(
            old(mem)@,
            dst as int,
            c_bytes(old(mem)@, src as int, None).push(0),
        ),
{
    let size: usize = mem.size();
    let (n, _ended) = scan_c_string(mem, src, None);
    proof {
        lemma_c_len(mem@, src as int, None);
    }
    store_payload(mem, dst, src, n);
    n
}

/// As [`fused_strncpy_prefix`].
pub fn bench_strncpy_fused(mem: &mut Memory, dst: usize, src: usize, n: usize) -> (r: usize)
    requires
        readable(old(mem)@, src as int, Some(n)),
        mapped(old(mem)@, dst as int, c_len(old(mem)@, src as int, Some(n))),
        apart(
            dst as int,
            c_len(old(mem)@, src as int, Some(n)),
            src as int,
            region(old(mem)@, src as int, Some(n)),
        ),
    ensures
        r == c_len(old(mem)@, src as int, Some(n)),
        final(mem)@ == put(old(mem)@, dst as int, c_bytes(old(mem)@, src as int, Some(n))),
{
    fused_strncpy_prefix(mem, dst, src, n)
}

/// As [`fused_strncpy_prefix`], with a scan for the length before the copy.
pub fn bench_strncpy_two_pass(mem: &mut Memory, dst: usize, src: usize, n: usize) -> (r: usize)
    requires
        readable(old(mem)@, src as int, Some(n)),
        mapped(old(mem)@, dst as int, c_len(old(mem)@, src as int, Some(n))),
        apart(
            dst as int,
            c_len(old(mem)@, src as int, Some(n)),
            src as int,
            region(old(mem)@, src as int, Some(n)),
        ),
    ensures
        r == c_len(old(mem)@, src as int, Some(n)),
        final(mem)@ == put(old(mem)@, dst as int, c_bytes(old(mem)@, src as int, Some(n))),
{
    let (k, _ended) = scan_c_string_nul_or_bound(mem, src, n);
    proof {
        lemma_c_len(mem@, src as int, Some(n));
    }
    raw_memcpy_bytes(mem, dst, src, k);
    k
}

/// Copies `n` bytes from `src` to `dst` and sets a NUL behind them.
pub(crate) fn store_payload(mem: &mut Memory, dst: usize, src: usize, n: usize)
    requires
        mapped(old(mem)@, dst as int, n + 1),
        mapped(old(mem)@, src as int, n as int),
        apart(dst as int, n as int, src as int, n as int),
    ensures
        final(mem)@ == put(
            old(mem)@,
            dst as int,
            block(old(mem)@, src as int, n as int).push(0),
        ),
{
    let size: usize = mem.size();
    raw_memcpy_bytes(mem, dst, src, n);
    mem.store(dst + n, 0);
    assert(mem@ =~= put(old(mem)@, dst as int, block(old(mem)@, src as int, n as int).push(0)));
}

/// `b` with a NUL, cut to the room that a bound leaves.
pub open spec fn fitted(b: Seq<u8>, room: Option<usize>) -> Seq<u8> {
    match room {
        Some(l) => if l == 0 {
            seq![]
        } else {
            c_text(b, l as int)
        },
        None => b.push(0),
    }
}

/// What `strcpy` writes.
pub open spec fn strcpy_written(m: Seq<u8>, rt: Runtime, dst: Ptr, src: Ptr) -> Seq<u8> {
    fitted(c_bytes(m, src.at(), rt.reach(src)), rt.reach(dst))
}

/// A repairing copy of `len` bytes, whose source did or did not end, wrote
/// `written` bytes: whether that is less than was asked for.
pub open spec fn cut_short(len: int, ended: bool, written: int) -> bool {
    !ended || written < len + 1
}

/// The exchanges of `strcpy` with the runtime.
pub open spec fn strcpy_events(m: Seq<u8>, rt: Runtime, dst: Ptr, src: Ptr) -> Seq<Event> {
    if rt.strict {
        seq![]
    } else if dst.null() || src.null() {
        seq![rt.outcome_two(dst, src, CheckStage::Null)]
    } else if rt.denies() {
        seq![
            ask_two(dst, src, 0, true),
            rt.outcome_two(dst, src, CheckStage::Arena),
            report(Cost::Flat(7), true),
        ]
    } else {
        let len = c_len(m, src.at(), rt.bound(src));
        let n = strcpy_written(m, rt, dst, src).len();
        let cut = cut_short(len, c_ended(m, src.at(), rt.bound(src)), n as int);
        let tail = seq![
            report(Cost::Scaled(8, n as usize), cut),
            rt.outcome_two(dst, src, CheckStage::Bounds),
        ];
        if cut {
            seq![
                ask_two(dst, src, 0, true),
                truncation((len + 1) as usize, before_nul(n as int) as usize),
            ] + tail
        } else {
            seq![ask_two(dst, src, 0, true)] + tail
        }
    }
}

/// The bytes before the NUL of `n` written bytes.
pub open spec fn before_nul(n: int) -> int {
    if n == 0 {
        0
    } else {
        n - 1
    }
}

/// Copies the string at `src` with its NUL to `dst`. Returns the address of the
/// NUL, or `None` where the call is denied; a null pointer gives `dst` back.
///
/// A repairing call reads no further than the source's allocation and writes no
/// further than the destination's, and still sets a NUL there.
pub fn strcpy_core(mem: &mut Memory, dst: Ptr, src: Ptr, cx: &mut Membrane) -> (r: Option<usize>)
    requires
        !dst.null() && !src.null() && old(cx).rt.serves() ==> {
            let m = old(mem)@;
            let len = strcpy_written(m, old(cx).rt, dst, src).len() as int;
            &&& readable(m, src.at(), old(cx).rt.reach(src))
            &&& mapped(m, dst.at(), len)
            &&& apart(dst.at(), len, src.at(), region(m, src.at(), old(cx).rt.reach(src)))
        },
    ensures
        dst.null() || src.null() ==> r == Some(dst.addr) && final(mem)@ == old(mem)@,
        !dst.null() && !src.null() && !old(cx).rt.serves() ==> r is None && final(mem)@
            == old(mem)@,
        !dst.null() && !src.null() && old(cx).rt.serves() ==> {
            let w = strcpy_written(old(mem)@, old(cx).rt, dst, src);
            &&& final(mem)@ == put(old(mem)@, dst.at(), w)
            &&& r is Some && r->Some_0 == dst.addr + before_nul(w.len() as int)
        },
        final(cx).follows(*old(cx), strcpy_events(old(mem)@, old(cx).rt, dst, src)),
{
    let size: usize = mem.size();
    if cx.rt.strict {
        if dst.is_null() || src.is_null() {
            return Some(dst.addr);
        }
        proof {
            lemma_c_len(mem@, src.at(), None);
        }
        let end: usize = fused_strcpy_bytes(mem, dst.addr, src.addr);
        return Some(dst.addr + end);
    }
    if dst.is_null() || src.is_null() {
        cx.outcome_two(dst, src, CheckStage::Null);
        return Some(dst.addr);
    }
    if !cx.ask_two(dst, src, 0, true) {
        cx.outcome_two(dst, src, CheckStage::Arena);
        cx.observe(Cost::Flat(7), true);
        return None;
    }
    let src_bound: Option<usize> = cx.bound(src);
    let dst_bound: Option<usize> = cx.bound(dst);
    let (src_len, ended) = scan_c_string(mem, src.addr, src_bound);
    let ghost m = mem@;
    proof {
        lemma_c_len(m, src.at(), src_bound);
    }
    let requested: usize = src_len + 1;
    let copied: usize = match dst_bound {
        Some(limit) => if limit == 0 {
            0
        } else {
            let payload: usize = if src_len < limit - 1 {
                src_len
            } else {
                limit - 1
            };
            store_payload(mem, dst.addr, src.addr, payload);
            payload + 1
        },
        None => {
            store_payload(mem, dst.addr, src.addr, src_len);
            src_len + 1
        },
    };
    assert(mem@ =~= put(m, dst.at(), strcpy_written(m, cx.rt, dst, src)));
    assert(copied == strcpy_written(m, cx.rt, dst, src).len());
    let cut: bool = !ended || copied < requested;
    let before: usize = copied.saturating_sub(1);
    if cut {
        cx.record_truncation(requested, before);
    }
    cx.observe(Cost::Scaled(8, copied), cut);
    cx.outcome_two(dst, src, CheckStage::Bounds);
    Some(dst.addr + before)
}

/// Copies the string at `src` to `dst` and returns `dst`; null where the call is
/// denied.
pub fn strcpy(mem: &mut Memory, dst: Ptr, src: Ptr, cx: &mut Membrane) -> (r: usize)
    requires
        !dst.null() && !src.null() && old(cx).rt.serves() ==> {
            let m = old(mem)@;
            let len = strcpy_written(m, old(cx).rt, dst, src).len() as int;
            &&& readable(m, src.at(), old(cx).rt.reach(src))
            &&& mapped(m, dst.at(), len)
            &&& apart(dst.at(), len, src.at(), region(m, src.at(), old(cx).rt.reach(src)))
        },
    ensures
        dst.null() || src.null() ==> r == dst.addr && final(mem)@ == old(mem)@,
        !dst.null() && !src.null() && !old(cx).rt.serves() ==> r == 0 && final(mem)@ == old(mem)@,
        !dst.null() && !src.null() && old(cx).rt.serves() ==> r == dst.addr && final(mem)@ == put(
            old(mem)@,
            dst.at(),
            strcpy_written(old(mem)@, old(cx).rt, dst, src),
        ),
        final(cx).follows(*old(cx), strcpy_events(old(mem)@, old(cx).rt, dst, src)),
{
    match strcpy_core(mem, dst, src, cx) {
        Some(_end) => dst.addr,
        None => 0,
    }
}

/// Copies the string at `src` to `dst` and returns the address of the NUL
/// written; null where the call is denied.
pub fn stpcpy(mem: &mut Memory, dst: Ptr, src: Ptr, cx: &mut Membrane) -> (r: usize)
    requires
        !dst.null() && !src.null() && old(cx).rt.serves() ==> {
            let m = old(mem)@;
            let len = strcpy_written(m, old(cx).rt, dst, src).len() as int;
            &&& readable(m, src.at(), old(cx).rt.reach(src))
            &&& mapped(m, dst.at(), len)
            &&& apart(dst.at(), len, src.at(), region(m, src.at(), old(cx).rt.reach(src)))
        },
    ensures
        dst.null() || src.null() ==> r == dst.addr && final(mem)@ == old(mem)@,
        !dst.null() && !src.null() && !old(cx).rt.serves() ==> r == 0 && final(mem)@ == old(mem)@,
        !dst.null() && !src.null() && old(cx).rt.serves() ==> {
            let w = strcpy_written(old(mem)@, old(cx).rt, dst, src);
            r == dst.addr + before_nul(w.len() as int) && final(mem)@ == put(old(mem)@, dst.at(), w)
        },
        final(cx).follows(*old(cx), strcpy_events(old(mem)@, old(cx).rt, dst, src)),
{
    match strcpy_core(mem, dst, src, cx) {
        Some(end) => end,
        None => 0,
    }
}

/// `b`, cut to at most `k` bytes.
pub open spec fn clip(b: Seq<u8>, k: int) -> Seq<u8> {
    if b.len() <= k {
        b
    } else {
        b.take(k)
    }
}

/// `b` with zero bytes behind it, `k` bytes in all.
pub open spec fn padded(b: Seq<u8>, k: int) -> Seq<u8> {
    b + filled(0, k - b.len())
}

/// How many of `n` bytes `strncpy` may touch at `p`.
pub open spec fn strncpy_limit(rt: Runtime, p: Ptr, n: usize) -> usize {
    if rt.strict {
        n
    } else {
        dest_limit(n, p.remaining, rt.repairs())
    }
}

/// The bytes of the string that `strncpy` copies.
pub open spec fn strncpy_prefix(m: Seq<u8>, rt: Runtime, dst: Ptr, src: Ptr, n: usize) -> Seq<u8> {
    clip(
        c_bytes(m, src.at(), Some(strncpy_limit(rt, src, n))),
        strncpy_limit(rt, dst, n) as int,
    )
}

/// The record of a size that was cut.
pub open spec fn clamp_note(requested: usize, limit: usize) -> Seq<Event> {
    if limit < requested {
        seq![Event::Heal(HealingAction::ClampSize { requested, clamped: limit })]
    } else {
        seq![]
    }
}

/// The exchanges of `strncpy` with the runtime.
pub open spec fn strncpy_events(rt: Runtime, dst: Ptr, src: Ptr, n: usize) -> Seq<Event> {
    if rt.strict {
        seq![]
    } else if dst.null() || src.null() {
        seq![rt.outcome_two(dst, src, CheckStage::Null)]
    } else if n == 0 {
        seq![]
    } else if rt.denies() {
        seq![
            ask_two(dst, src, n, true),
            rt.outcome_two(dst, src, CheckStage::Arena),
            report(Cost::Scaled(8, n), true),
        ]
    } else {
        let d = strncpy_limit(rt, dst, n);
        let s = strncpy_limit(rt, src, n);
        seq![ask_two(dst, src, n, true)] + clamp_note(n, d) + clamp_note(n, s) + if d == 0 {
            seq![
                rt.outcome_two(dst, src, CheckStage::Bounds),
                report(Cost::Scaled(8, n), true),
            ]
        } else {
            seq![
                report(Cost::Scaled(8, d), d < n || s < n),
                rt.outcome_two(dst, src, CheckStage::Bounds),
            ]
        }
    }
}

/// What `strncpy` needs of the memory: a string, or as many bytes as it may read,
/// room for what it writes, and a copy that does not land on what it reads.
pub open spec fn strncpy_ready(m: Seq<u8>, rt: Runtime, dst: Ptr, src: Ptr, n: usize) -> bool {
    !dst.null() && !src.null() && n != 0 && rt.serves() && strncpy_limit(rt, dst, n) != 0 ==> {
        let s = Some(strncpy_limit(rt, src, n));
        let d = strncpy_limit(rt, dst, n) as int;
        let k = strncpy_prefix(m, rt, dst, src, n).len() as int;
        let read = if region(m, src.at(), s) < d {
            region(m, src.at(), s)
        } else {
            d
        };
        &&& readable(m, src.at(), s)
        &&& mapped(m, dst.at(), d)
        &&& apart(dst.at(), k, src.at(), read)
    }
}

fn note_clamp(cx: &mut Membrane, requested: usize, limit: usize)
    ensures
        final(cx).follows(*old(cx), clamp_note(requested, limit)),
{
    if limit < requested {
        cx.note(Event::Heal(HealingAction::ClampSize { requested, clamped: limit }));
    }
}

/// Copies the string at `src`, or its first `n` bytes, to `dst` and fills up to
/// `n` bytes with zeros. Returns how many bytes of the string were copied, or
/// `None` where the call is denied.
///
/// A repairing call touches no byte behind the two allocations.
pub fn strncpy_core(
    mem: &mut Memory,
    dst: Ptr,
    src: Ptr,
    n: usize,
    cx: &mut Membrane,
) -> (r: Option<usize>)
    requires
        strncpy_ready(old(mem)@, old(cx).rt, dst, src, n),
    ensures
        dst.null() || src.null() || n == 0 ==> r == Some(0usize) && final(mem)@ == old(mem)@,
        !dst.null() && !src.null() && n != 0 && !old(cx).rt.serves() ==> r is None && final(mem)@
            == old(mem)@,
        !dst.null() && !src.null() && n != 0 && old(cx).rt.serves() ==> {
            let b = strncpy_prefix(old(mem)@, old(cx).rt, dst, src, n);
            let d = strncpy_limit(old(cx).rt, dst, n) as int;
            &&& r is Some && r->Some_0 == b.len() && b.len() <= d <= n
            &&& final(mem)@ == put(old(mem)@, dst.at(), padded(b, d))
        },
        final(cx).follows(*old(cx), strncpy_events(old(cx).rt, dst, src, n)),
{
    if cx.rt.strict {
        if dst.is_null() || src.is_null() || n == 0 {
            return Some(0);
        }
        proof {
            lemma_c_len(mem@, src.at(), Some(n));
        }
        return Some(copy_and_pad(mem, dst.addr, n, src.addr, n));
    }
    if dst.is_null() || src.is_null() {
        cx.outcome_two(dst, src, CheckStage::Null);
        return Some(0);
    }
    if n == 0 {
        return Some(0);
    }
    strncpy_validating(mem, dst, src, n, cx)
}

/// Copies the string at `src`, or its first `src_len` bytes, to the `dst_len`
/// bytes at `dst`, cut to fit, and fills the rest of them with zeros. Returns how
/// many bytes were copied.
fn copy_and_pad(mem: &mut Memory, dst: usize, dst_len: usize, src: usize, src_len: usize) -> (r:
    usize)
    requires
        readable(old(mem)@, src as int, Some(src_len)),
        mapped(old(mem)@, dst as int, dst_len as int),
        ({
            let k = clip(c_bytes(old(mem)@, src as int, Some(src_len)), dst_len as int).len();
            apart(dst as int, k as int, src as int, k as int)
        }),
    ensures
        ({
            let b = clip(c_bytes(old(mem)@, src as int, Some(src_len)), dst_len as int);
            &&& r == b.len() && r <= dst_len
            &&& final(mem)@ == put(old(mem)@, dst as int, padded(b, dst_len as int))
        }),
{
    let size: usize = mem.size();
    let ghost m = mem@;
    proof {
        lemma_c_len(m, src as int, Some(src_len));
    }
    let (k, _ended) = scan_c_string_nul_or_bound(mem, src, src_len);
    let n: usize = if k < dst_len {
        k
    } else {
        dst_len
    };
    raw_memcpy_bytes(mem, dst, src, n);
    if n < dst_len {
        raw_memset_bytes(mem, dst + n, 0, dst_len - n);
    }
    assert(mem@ =~= put(
        m,
        dst as int,
        padded(clip(c_bytes(m, src as int, Some(src_len)), dst_len as int), dst_len as int),
    ));
    n
}

fn strncpy_validating(mem: &mut Memory, dst: Ptr, src: Ptr, n: usize, cx: &mut Membrane) -> (r:
    Option<usize>)
    requires
        !old(cx).rt.strict,
        !dst.null() && !src.null() && n != 0,
        strncpy_ready(old(mem)@, old(cx).rt, dst, src, n),
    ensures
        old(cx).rt.denies() ==> r is None && final(mem)@ == old(mem)@,
        !old(cx).rt.denies() ==> {
            let b = strncpy_prefix(old(mem)@, old(cx).rt, dst, src, n);
            let d = strncpy_limit(old(cx).rt, dst, n) as int;
            &&& r is Some && r->Some_0 == b.len() && b.len() <= d <= n
            &&& final(mem)@ == put(old(mem)@, dst.at(), padded(b, d))
        },
        final(cx).follows(*old(cx), strncpy_events(old(cx).rt, dst, src, n)),
{
    if !cx.ask_two(dst, src, n, true) {
        cx.outcome_two(dst, src, CheckStage::Arena);
        cx.observe(Cost::Scaled(8, n), true);
        return None;
    }
    let repair: bool = cx.repairs();
    let (safe_dst, dst_cut) = clamp_destination_size_for_repair(n, dst.remaining, repair);
    note_clamp(cx, n, safe_dst);
    let (safe_src, src_cut) = clamp_destination_size_for_repair(n, src.remaining, repair);
    note_clamp(cx, n, safe_src);
    if safe_dst == 0 {
        cx.outcome_two(dst, src, CheckStage::Bounds);
        cx.observe(Cost::Scaled(8, n), true);
        assert(mem@ =~= put(
            mem@,
            dst.at(),
            padded(strncpy_prefix(mem@, cx.rt, dst, src, n), 0),
        ));
        return Some(0);
    }
    proof {
        lemma_c_len(mem@, src.at(), Some(safe_src));
    }
    let copied: usize = copy_and_pad(mem, dst.addr, safe_dst, src.addr, safe_src);
    cx.observe(Cost::Scaled(8, safe_dst), dst_cut || src_cut);
    cx.outcome_two(dst, src, CheckStage::Bounds);
    Some(copied)
}

/// What `strncpy` leaves in memory.
pub open spec fn strncpy_memory(m: Seq<u8>, rt: Runtime, dst: Ptr, src: Ptr, n: usize) -> Seq<u8> {
    if dst.null() || src.null() || n == 0 || !rt.serves() {
        m
    } else {
        put(
            m,
            dst.at(),
            padded(strncpy_prefix(m, rt, dst, src, n), strncpy_limit(rt, dst, n) as int),
        )
    }
}

/// Copies the string at `src`, or its first `n` bytes, to `dst` and fills up to
/// `n` bytes with zeros. Returns `dst`, or null where the call is denied.
pub fn strncpy(mem: &mut Memory, dst: Ptr, src: Ptr, n: usize, cx: &mut Membrane) -> (r: usize)
    requires
        strncpy_ready(old(mem)@, old(cx).rt, dst, src, n),
    ensures
        r == if dst.null() || src.null() || n == 0 || old(cx).rt.serves() {
            dst.addr
        } else {
            0
        },
        final(mem)@ == strncpy_memory(old(mem)@, old(cx).rt, dst, src, n),
        final(cx).follows(*old(cx), strncpy_events(old(cx).rt, dst, src, n)),
{
    match strncpy_core(mem, dst, src, n, cx) {
        Some(_offset) => dst.addr,
        None => 0,
    }
}

/// As [`strncpy`], but returns the address behind the bytes of the string.
pub fn stpncpy(mem: &mut Memory, dst: Ptr, src: Ptr, n: usize, cx: &mut Membrane) -> (r: usize)
    requires
        strncpy_ready(old(mem)@, old(cx).rt, dst, src, n),
    ensures
        r == if dst.null() || src.null() || n == 0 {
            dst.addr as int
        } else if old(cx).rt.serves() {
            dst.addr + strncpy_prefix(old(mem)@, old(cx).rt, dst, src, n).len()
        } else {
            0
        },
        final(mem)@ == strncpy_memory(old(mem)@, old(cx).rt, dst, src, n),
        final(cx).follows(
            *old(cx),
            if dst.null() || src.null() || n == 0 {
                seq![]
            } else {
                strncpy_events(old(cx).rt, dst, src, n)
            },
        ),
{
    let size: usize = mem.size();
    if dst.is_null() || src.is_null() {
        return dst.addr;
    }
    if n == 0 {
        return dst.addr;
    }
    match strncpy_core(mem, dst, src, n, cx) {
        Some(offset) => dst.addr + offset,
        None => 0,
    }
}

/// As [`strcpy`].
pub fn __strcpy_small(mem: &mut Memory, dst: Ptr, src: Ptr, cx: &mut Membrane) -> (r: usize)
    requires
        !dst.null() && !src.null() && old(cx).rt.serves() ==> {
            let m = old(mem)@;
            let len = strcpy_written(m, old(cx).rt, dst, src).len() as int;
            &&& readable(m, src.at(), old(cx).rt.reach(src))
            &&& mapped(m, dst.at(), len)
            &&& apart(dst.at(), len, src.at(), region(m, src.at(), old(cx).rt.reach(src)))
        },
    ensures
        dst.null() || src.null() ==> r == dst.addr && final(mem)@ == old(mem)@,
        !dst.null() && !src.null() && !old(cx).rt.serves() ==> r == 0 && final(mem)@ == old(mem)@,
        !dst.null() && !src.null() && old(cx).rt.serves() ==> r == dst.addr && final(mem)@ == put(
            old(mem)@,
            dst.at(),
            strcpy_written(old(mem)@, old(cx).rt, dst, src),
        ),
        final(cx).follows(*old(cx), strcpy_events(old(mem)@, old(cx).rt, dst, src)),
{
    strcpy(mem, dst, src, cx)
}

/// As [`stpcpy`].
pub fn __stpcpy(mem: &mut Memory, dst: Ptr, src: Ptr, cx: &mut Membrane) -> (r: usize)
    requires
        !dst.null() && !src.null() && old(cx).rt.serves() ==> {
            let m = old(mem)@;
            let len = strcpy_written(m, old(cx).rt, dst, src).len() as int;
            &&& readable(m, src.at(), old(cx).rt.reach(src))
            &&& mapped(m, dst.at(), len)
            &&& apart(dst.at(), len, src.at(), region(m, src.at(), old(cx).rt.reach(src)))
        },
    ensures
        dst.null() || src.null() ==> r == dst.addr && final(mem)@ == old(mem)@,
        !dst.null() && !src.null() && !old(cx).rt.serves() ==> r == 0 && final(mem)@ == old(mem)@,
        !dst.null() && !src.null() && old(cx).rt.serves() ==> {
            let w = strcpy_written(old(mem)@, old(cx).rt, dst, src);
            r == dst.addr + before_nul(w.len() as int) && final(mem)@ == put(old(mem)@, dst.at(), w)
        },
        final(cx).follows(*old(cx), strcpy_events(old(mem)@, old(cx).rt, dst, src)),
{
    stpcpy(mem, dst, src, cx)
}

/// As [`stpcpy`].
pub fn __stpcpy_small(mem: &mut Memory, dst: Ptr, src: Ptr, cx: &mut Membrane) -> (r: usize)
    requires
        !dst.null() && !src.null() && old(cx).rt.serves() ==> {
            let m = old(mem)@;
            let len = strcpy_written(m, old(cx).rt, dst, src).len() as int;
            &&& readable(m, src.at(), old(cx).rt.reach(src))
            &&& mapped(m, dst.at(), len)
            &&& apart(dst.at(), len, src.at(), region(m, src.at(), old(cx).rt.reach(src)))
        },
    ensures
        dst.null() || src.null() ==> r == dst.addr && final(mem)@ == old(mem)@,
        !dst.null() && !src.null() && !old(cx).rt.serves() ==> r == 0 && final(mem)@ == old(mem)@,
        !dst.null() && !src.null() && old(cx).rt.serves() ==> {
            let w = strcpy_written(old(mem)@, old(cx).rt, dst, src);
            r == dst.addr + before_nul(w.len() as int) && final(mem)@ == put(old(mem)@, dst.at(), w)
        },
        final(cx).follows(*old(cx), strcpy_events(old(mem)@, old(cx).rt, dst, src)),
{
    stpcpy(mem, dst, src, cx)
}

/// As [`stpncpy`].
pub fn __stpncpy(mem: &mut Memory, dst: Ptr, src: Ptr, n: usize, cx: &mut Membrane) -> (r: usize)
    requires
        strncpy_ready(old(mem)@, old(cx).rt, dst, src, n),
    ensures
        r == if dst.null() || src.null() || n == 0 {
            dst.addr as int
        } else if old(cx).rt.serves() {
            dst.addr + strncpy_prefix(old(mem)@, old(cx).rt, dst, src, n).len()
        } else {
            0
        },
        final(mem)@ == strncpy_memory(old(mem)@, old(cx).rt, dst, src, n),
        final(cx).follows(
            *old(cx),
            if dst.null() || src.null() || n == 0 {
                seq![]
            } else {
                strncpy_events(old(cx).rt, dst, src, n)
            },
        ),
{
    stpncpy(mem, dst, src, n, cx)
}

/// What `strlcpy` may write at `dst`.
pub open spec fn strlcpy_limit(rt: Runtime, dst: Ptr, dstsize: usize) -> usize {
    if rt.strict {
        dstsize
    } else {
        dest_limit(dstsize, dst.remaining, rt.repairs())
    }
}

/// The exchanges of `strlcpy` with the runtime.
pub open spec fn strlcpy_events(
    m: Seq<u8>,
    rt: Runtime,
    dst: Ptr,
    src: Ptr,
    dstsize: usize,
) -> Seq<Event> {
    if dst.null() || src.null() || dstsize == 0 {
        seq![rt.outcome_two(dst, src, CheckStage::Null)]
    } else if rt.strict {
        seq![]
    } else if rt.denies() {
        seq![
            ask_two(dst, src, dstsize, true),
            rt.outcome_two(dst, src, CheckStage::Arena),
            report(Cost::Scaled(7, dstsize), true),
        ]
    } else {
        let limit = strlcpy_limit(rt, dst, dstsize);
        let len = c_len(m, src.at(), rt.bound(src)) as usize;
        let span = if len < limit {
            limit
        } else {
            len
        };
        seq![ask_two(dst, src, dstsize, true)] + cut_note(dstsize, limit) + seq![
            rt.outcome_two(dst, src, CheckStage::Bounds),
            report(Cost::Scaled(7, span), rt.bound(src) is Some || limit < dstsize),
        ]
    }
}

/// The record of a destination that was cut.
pub open spec fn cut_note(requested: usize, limit: usize) -> Seq<Event> {
    if limit < requested {
        seq![truncation(requested, limit)]
    } else {
        seq![]
    }
}

/// Copies the string at `src` into the `dstsize` bytes at `dst`, cut to fit with
/// its NUL. Returns the length of the string, which is also all that happens
/// without a destination; `0` for a null source or a denied call.
pub fn strlcpy(mem: &mut Memory, dst: Ptr, src: Ptr, dstsize: usize, cx: &mut Membrane) -> (r:
    usize)
    requires
        !src.null() && (dst.null() || dstsize == 0) ==> readable(
            old(mem)@,
            src.at(),
            src.remaining,
        ),
        !src.null() && !dst.null() && dstsize != 0 && old(cx).rt.serves() ==> {
            let m = old(mem)@;
            let limit = strlcpy_limit(old(cx).rt, dst, dstsize);
            let b = c_bytes(m, src.at(), old(cx).rt.reach(src));
            let k = before_nul(fitted(b, Some(limit)).len() as int);
            &&& readable(m, src.at(), old(cx).rt.reach(src))
            &&& mapped(m, dst.at(), limit as int)
            &&& apart(dst.at(), k, src.at(), k)
        },
    ensures
        src.null() ==> r == 0 && final(mem)@ == old(mem)@,
        !src.null() && (dst.null() || dstsize == 0) ==> r == c_len(
            old(mem)@,
            src.at(),
            src.remaining,
        ) && final(mem)@ == old(mem)@,
        !src.null() && !dst.null() && dstsize != 0 && !old(cx).rt.serves() ==> r == 0
            && final(mem)@ == old(mem)@,
        !src.null() && !dst.null() && dstsize != 0 && old(cx).rt.serves() ==> r == c_len(
            old(mem)@,
            src.at(),
            old(cx).rt.reach(src),
        ) && final(mem)@ == put(
            old(mem)@,
            dst.at(),
            fitted(
                c_bytes(old(mem)@, src.at(), old(cx).rt.reach(src)),
                Some(strlcpy_limit(old(cx).rt, dst, dstsize)),
            ),
        ),
        final(cx).follows(*old(cx), strlcpy_events(old(mem)@, old(cx).rt, dst, src, dstsize)),
{
    let size: usize = mem.size();
    let ghost m = mem@;
    if src.is_null() {
        cx.outcome_two(dst, src, CheckStage::Null);
        return 0;
    }
    if dst.is_null() || dstsize == 0 {
        let (src_len, _ended) = scan_c_string(mem, src.addr, src.remaining);
        cx.outcome_two(dst, src, CheckStage::Null);
        return src_len;
    }
    if cx.rt.strict {
        let (src_len, _ended) = scan_c_string(mem, src.addr, None);
        proof {
            lemma_c_len(m, src.at(), None);
        }
        store_fitted(mem, dst.addr, dstsize, src.addr, src_len);
        return src_len;
    }
    if !cx.ask_two(dst, src, dstsize, true) {
        cx.outcome_two(dst, src, CheckStage::Arena);
        cx.observe(Cost::Scaled(7, dstsize), true);
        return 0;
    }
    let repair: bool = cx.repairs();
    let src_bound: Option<usize> = cx.bound(src);
    let dst_bound: Option<usize> = cx.bound(dst);
    let (limit, cut) = clamp_destination_size_for_repair(dstsize, dst_bound, repair);
    if cut {
        cx.record_truncation(dstsize, limit);
    }
    let (src_len, _ended) = scan_c_string(mem, src.addr, src_bound);
    proof {
        lemma_c_len(m, src.at(), src_bound);
    }
    store_fitted(mem, dst.addr, limit, src.addr, src_len);
    let span: usize = if src_len < limit {
        limit
    } else {
        src_len
    };
    cx.outcome_two(dst, src, CheckStage::Bounds);
    cx.observe(Cost::Scaled(7, span), src_bound.is_some() || cut);
    src_len
}

/// Copies `len` bytes from `src` into the `limit` bytes at `dst`, cut to fit with
/// a NUL; nothing where `limit` is zero.
pub(crate) fn store_fitted(mem: &mut Memory, dst: usize, limit: usize, src: usize, len: usize)
    requires
        mapped(old(mem)@, dst as int, limit as int),
        mapped(old(mem)@, src as int, len as int),
        ({
            let b = block(old(mem)@, src as int, len as int);
            let k = before_nul(fitted(b, Some(limit)).len() as int);
            apart(dst as int, k, src as int, k)
        }),
    ensures
        final(mem)@ == put(
            old(mem)@,
            dst as int,
            fitted(block(old(mem)@, src as int, len as int), Some(limit)),
        ),
{
    if limit > 0 {
        let n: usize = if len < limit {
            len
        } else {
            limit - 1
        };
        store_payload(mem, dst, src, n);
    }
    assert(mem@ =~= put(
        old(mem)@,
        dst as int,
        fitted(block(old(mem)@, src as int, len as int), Some(limit)),
    ));
}

/// What `strxfrm` writes: the string, with its NUL where there is room for it.
pub open spec fn transformed(b: Seq<u8>, n: int) -> Seq<u8> {
    if b.len() < n {
        b.push(0)
    } else {
        b.take(n)
    }
}

/// The exchanges of `strxfrm` with the runtime.
pub open spec fn strxfrm_events(m: Seq<u8>, rt: Runtime, dst: Ptr, src: Ptr, n: usize) -> Seq<
    Event,
> {
    if rt.strict {
        seq![]
    } else if src.null() {
        seq![rt.outcome_two(dst, src, CheckStage::Null)]
    } else {
        let ask = Event::Decide(
            Query {
                addr: dst.addr,
                len: n,
                write: true,
                untracked: src.remaining is None,
            },
        );
        if rt.denies() {
            seq![
                ask,
                rt.outcome_two(dst, src, CheckStage::Arena),
                report(Cost::Scaled(7, n), true),
            ]
        } else {
            let len = c_len(m, src.at(), rt.bound(src)) as usize;
            let span = if !dst.null() && len < n {
                n
            } else {
                len
            };
            seq![
                ask,
                rt.outcome_two(dst, src, CheckStage::Bounds),
                report(Cost::Scaled(7, span), rt.bound(src) is Some),
            ]
        }
    }
}

/// Transforms the string at `src` for comparison by byte order, which leaves its
/// bytes as they are, into the `n` bytes at `dst`. Returns the length of the
/// string; `0` for a null source or a denied call.
pub fn strxfrm(mem: &mut Memory, dst: Ptr, src: Ptr, n: usize, cx: &mut Membrane) -> (r: usize)
    requires
        !src.null() && old(cx).rt.serves() ==> readable(
            old(mem)@,
            src.at(),
            old(cx).rt.reach(src),
        ),
        !src.null() && !dst.null() && n != 0 && old(cx).rt.serves() ==> mapped(
            old(mem)@,
            dst.at(),
            n as int,
        ) && {
            let b = c_bytes(old(mem)@, src.at(), old(cx).rt.reach(src));
            let k = clip(b, n as int).len() as int;
            apart(dst.at(), k, src.at(), k)
        },
    ensures
        src.null() || !old(cx).rt.serves() ==> r == 0 && final(mem)@ == old(mem)@,
        !src.null() && old(cx).rt.serves() ==> r == c_len(
            old(mem)@,
            src.at(),
            old(cx).rt.reach(src),
        ) && final(mem)@ == if dst.null() || n == 0 {
            old(mem)@
        } else {
            put(
                old(mem)@,
                dst.at(),
                transformed(c_bytes(old(mem)@, src.at(), old(cx).rt.reach(src)), n as int),
            )
        },
        final(cx).follows(*old(cx), strxfrm_events(old(mem)@, old(cx).rt, dst, src, n)),
{
    let size: usize = mem.size();
    let ghost m = mem@;
    if src.is_null() {
        if !cx.rt.strict {
            cx.outcome_two(dst, src, CheckStage::Null);
        }
        return 0;
    }
    if cx.rt.strict {
        let (src_len, _ended) = scan_c_string(mem, src.addr, None);
        proof {
            lemma_c_len(m, src.at(), None);
        }
        if !dst.is_null() && n != 0 {
            store_transformed(mem, dst.addr, n, src.addr, src_len);
        }
        return src_len;
    }
    let query = Query {
        addr: dst.addr,
        len: n,
        write: true,
        untracked: src.remaining.is_none(),
    };
    if !cx.decide(query) {
        cx.outcome_two(dst, src, CheckStage::Arena);
        cx.observe(Cost::Scaled(7, n), true);
        return 0;
    }
    let src_bound: Option<usize> = cx.bound(src);
    let (src_len, _ended) = scan_c_string(mem, src.addr, src_bound);
    proof {
        lemma_c_len(m, src.at(), src_bound);
    }
    let mut span: usize = src_len;
    if !dst.is_null() && n != 0 {
        store_transformed(mem, dst.addr, n, src.addr, src_len);
        if src_len < n {
            span = n;
        }
    }
    cx.outcome_two(dst, src, CheckStage::Bounds);
    cx.observe(Cost::Scaled(7, span), src_bound.is_some());
    src_len
}

fn store_transformed(mem: &mut Memory, dst: usize, n: usize, src: usize, len: usize)
    requires
        mapped(old(mem)@, dst as int, n as int),
        mapped(old(mem)@, src as int, len as int),
        ({
            let k = clip(block(old(mem)@, src as int, len as int), n as int).len() as int;
            apart(dst as int, k, src as int, k)
        }),
    ensures
        final(mem)@ == put(
            old(mem)@,
            dst as int,
            transformed(block(old(mem)@, src as int, len as int), n as int),
        ),
{
    if len < n {
        store_payload(mem, dst, src, len);
    } else {
        raw_memcpy_bytes(mem, dst, src, n);
    }
    assert(mem@ =~= put(
        old(mem)@,
        dst as int,
        transformed(block(old(mem)@, src as int, len as int), n as int),
    ));
}

/// As [`strxfrm`], whatever the locale.
pub fn __strxfrm_l(
    mem: &mut Memory,
    dst: Ptr,
    src: Ptr,
    n: usize,
    _locale: usize,
    cx: &mut Membrane,
) -> (r: usize)
    requires
        !src.null() && old(cx).rt.serves() ==> readable(
            old(mem)@,
            src.at(),
            old(cx).rt.reach(src),
        ),
        !src.null() && !dst.null() && n != 0 && old(cx).rt.serves() ==> mapped(
            old(mem)@,
            dst.at(),
            n as int,
        ) && {
            let b = c_bytes(old(mem)@, src.at(), old(cx).rt.reach(src));
            let k = clip(b, n as int).len() as int;
            apart(dst.at(), k, src.at(), k)
        },
    ensures
        src.null() || !old(cx).rt.serves() ==> r == 0 && final(mem)@ == old(mem)@,
        !src.null() && old(cx).rt.serves() ==> r == c_len(
            old(mem)@,
            src.at(),
            old(cx).rt.reach(src),
        ) && final(mem)@ == if dst.null() || n == 0 {
            old(mem)@
        } else {
            put(
                old(mem)@,
                dst.at(),
                transformed(c_bytes(old(mem)@, src.at(), old(cx).rt.reach(src)), n as int),
            )
        },
        final(cx).follows(*old(cx), strxfrm_events(old(mem)@, old(cx).rt, dst, src, n)),
{
    strxfrm(mem, dst, src, n, cx)
}

/// A string written with its NUL reads back as the same string.
pub proof fn law_written_string_reads_back(m: Seq<u8>, d: int, b: Seq<u8>)
    requires
        mapped(m, d, b.len() as int + 1),
        !b.contains(0),
    ensures
        readable(put(m, d, b.push(0)), d, None),
        c_bytes(put(m, d, b.push(0)), d, None) == b,
        c_len(put(m, d, b.push(0)), d, None) == b.len(),
{
    let m2 = put(m, d, b.push(0));
    assert(m2[d + b.len()] == 0);
    assert(has_nul(m2, d));
    assert forall|j: int| d <= j < d + b.len() implies #[trigger] m2[j] != 0 by {
        assert(m2[j] == b[j - d]);
    }
    lemma_c_len_is(m2, d, None, b.len() as int);
    assert(c_bytes(m2, d, None) =~= b);
}

/// A copied string reads back at the destination as the one at the source.
pub proof fn law_strcpy_copies(m: Seq<u8>, d: int, s: int)
    requires
        readable(m, s, None),
        mapped(m, d, c_len(m, s, None) + 1),
    ensures
        c_bytes(put(m, d, c_bytes(m, s, None).push(0)), d, None) == c_bytes(m, s, None),
{
    lemma_c_len(m, s, None);
    let b = c_bytes(m, s, None);
    if b.contains(0) {
        let i = choose|i: int| 0 <= i < b.len() && b[i] == 0;
        assert(m[s + i] == 0);
    }
    law_written_string_reads_back(m, d, b);
}

/// Where something is written at all, a text cut to its room ends in a NUL and
/// stays inside the room.
pub proof fn law_fitted_text_ends(b: Seq<u8>, room: usize)
    requires
        room > 0,
    ensures
        0 < fitted(b, Some(room)).len() <= room,
        fitted(b, Some(room)).last() == 0,
        fitted(b, Some(room)).drop_last().is_prefix_of(b),
{
    assert(fitted(b, Some(room)).drop_last() =~= b.take(fitted(b, Some(room)).len() - 1));
}

/// A call that repairs nothing writes what a strict one does.
pub proof fn law_allowed_strcpy_is_strict(
    m: Seq<u8>,
    rt: Runtime,
    strict: Runtime,
    dst: Ptr,
    src: Ptr,
)
    requires
        strict.strict,
        !rt.repairs(),
    ensures
        strcpy_written(m, rt, dst, src) == strcpy_written(m, strict, dst, src),
{
}

/// A repairing call writes no byte behind the destination's allocation.
pub proof fn law_repaired_writes_stay_inside(
    m: Seq<u8>,
    rt: Runtime,
    dst: Ptr,
    src: Ptr,
    n: usize,
    b: usize,
)
    requires
        !rt.strict,
        rt.repairs(),
        dst.remaining == Some(b),
    ensures
        strcpy_written(m, rt, dst, src).len() <= b,
        strncpy_limit(rt, dst, n) <= b,
        strlcpy_limit(rt, dst, n) <= b,
{
}

/// What `strncpy` says it copied is the length of what it left at the
/// destination, looked at over the bytes it wrote.
pub proof fn law_strncpy_offset_is_strnlen(m: Seq<u8>, d: int, b: Seq<u8>, k: usize)
    requires
        mapped(m, d, k as int),
        b.len() <= k,
        !b.contains(0),
    ensures
        c_len(put(m, d, padded(b, k as int)), d, Some(k)) == b.len(),
{
    let m2 = put(m, d, padded(b, k as int));
    assert forall|j: int| d <= j < d + b.len() implies #[trigger] m2[j] != 0 by {
        assert(m2[j] == b[j - d]);
        assert(b.contains(b[j - d]));
    }
    if b.len() < k {
        assert(m2[d + b.len()] == 0);
    }
    lemma_c_len_is(m2, d, Some(k), b.len() as int);
}

/// A bounded copy loses bytes exactly where the string is not shorter than the
/// destination, which is what the length that `strlcpy` returns tells.
pub proof fn law_strlcpy_truncates_iff_not_shorter(b: Seq<u8>, size: usize)
    requires
        size > 0,
    ensures
        fitted(b, Some(size)) == b.push(0) <==> b.len() < size,
{
    if b.len() >= size {
        assert(fitted(b, Some(size)).len() == size);
        assert(b.push(0).len() == b.len() + 1);
    }
}

/// A transformed string that fits reads back as the string itself, so comparing
/// transformed strings byte by byte gives the order of the strings.
pub proof fn law_transformed_string_is_the_string(m: Seq<u8>, d: int, b: Seq<u8>, n: int)
    requires
        mapped(m, d, n),
        b.len() < n,
        !b.contains(0),
    ensures
        c_bytes(put(m, d, transformed(b, n)), d, None) == b,
{
    law_written_string_reads_back(m, d, b);
}

/// The copy of a string reads back as the string, cut to the room of a repaired
/// call less one byte for the NUL. Nothing is written where there is no room.
pub proof fn law_copy_reads_back(m: Seq<u8>, rt: Runtime, dst: Ptr, src: Ptr)
    requires
        readable(m, src.at(), rt.reach(src)),
        mapped(m, dst.at(), strcpy_written(m, rt, dst, src).len() as int),
    ensures
        ({
            let b = c_bytes(m, src.at(), rt.reach(src));
            let after = put(m, dst.at(), strcpy_written(m, rt, dst, src));
            match rt.reach(dst) {
                None => c_bytes(after, dst.at(), None) == b,
                Some(l) => if l == 0 {
                    after == m
                } else if b.len() < l {
                    c_bytes(after, dst.at(), None) == b
                } else {
                    c_bytes(after, dst.at(), None) == b.take(l - 1)
                },
            }
        }),
{
    let b = c_bytes(m, src.at(), rt.reach(src));
    law_string_bytes(m, src.at(), rt.reach(src), 0);
    let w = strcpy_written(m, rt, dst, src);
    match rt.reach(dst) {
        None => {
            law_written_string_reads_back(m, dst.at(), b);
        },
        Some(l) => if l == 0 {
            assert(put(m, dst.at(), w) =~= m);
        } else if b.len() < l {
            law_written_string_reads_back(m, dst.at(), b);
        } else {
            let t = b.take(l - 1);
            assert(!t.contains(0)) by {
                if t.contains(0) {
                    let k = choose|k: int| 0 <= k < t.len() && t[k] == 0;
                    assert(b[k] == 0);
                    assert(b.contains(0));
                }
            }
            law_written_string_reads_back(m, dst.at(), t);
        },
    }
}

/// A bounded copy fills its field: with the bytes of the string up to its NUL, and
/// with zeros behind them. What a repaired call may not read counts as the end of
/// the string, and what it may not write stays as it was.
pub proof fn law_bounded_copy_fills_the_field(
    m: Seq<u8>,
    rt: Runtime,
    dst: Ptr,
    src: Ptr,
    n: usize,
    i: int,
)
    requires
        dst.addr != 0,
        src.addr != 0,
        rt.strict || !(rt.action is Deny),
        strncpy_ready(m, rt, dst, src, n),
        0 <= i < m.len(),
    ensures
        ({
            let limited = !rt.strict && (rt.heals || rt.action is Repair);
            let room = if limited && dst.remaining is Some && dst.remaining->Some_0 < n {
                dst.remaining->Some_0
            } else {
                n
            };
            let reads = if limited && src.remaining is Some && src.remaining->Some_0 < n {
                src.remaining->Some_0
            } else {
                n
            };
            let k = i - dst.addr;
            let after = strncpy_memory(m, rt, dst, src, n);
            &&& after.len() == m.len()
            &&& k < 0 || k >= room ==> after[i] == m[i]
            &&& 0 <= k < room ==> after[i] == if k < c_len(m, src.at(), Some(reads)) {
                m[src.addr + k]
            } else {
                0
            }
        }),
{
    let d = strncpy_limit(rt, dst, n) as int;
    let s = strncpy_limit(rt, src, n);
    let b = c_bytes(m, src.at(), Some(s));
    if n > 0 && d > 0 {
        lemma_c_len(m, src.at(), Some(s));
        assert(b.len() == c_len(m, src.at(), Some(s)));
        let t = clip(b, d);
        assert(padded(t, d).len() == d);
    } else if n > 0 {
        assert(clip(b, d).len() == 0) by {
            if b.len() > d {
                assert(b.take(0).len() == 0);
            }
        }
        assert(strncpy_memory(m, rt, dst, src, n) =~= m);
    }
}

/// Bytes are clipped to a front, and padded with zeros to a length.
pub proof fn law_clip_and_pad(b: Seq<u8>, k: int, i: int)
    requires
        0 <= k,
    ensures
        clip(b, k).len() <= k,
        clip(b, k) == b || clip(b, k).len() == k,
        0 <= i < clip(b, k).len() ==> clip(b, k)[i] == b[i],
        b.len() <= k ==> padded(b, k).len() == k,
        b.len() <= k && 0 <= i < b.len() ==> padded(b, k)[i] == b[i],
        b.len() <= i < k ==> padded(b, k)[i] == 0,
{
}

/// The size of the destination is as given, and in a repaired call no greater
/// than its allocation.
pub proof fn law_copy_size(rt: Runtime, dst: Ptr, n: usize)
    ensures
        rt.strict || dst.remaining is None || !(rt.heals || rt.action is Repair) ==> strlcpy_limit(
            rt,
            dst,
            n,
        ) == n && strncpy_limit(rt, dst, n) == n,
        !rt.strict && (rt.heals || rt.action is Repair) && dst.remaining is Some ==> strlcpy_limit(
            rt,
            dst,
            n,
        ) == (if dst.remaining->Some_0 < n {
            dst.remaining->Some_0
        } else {
            n
        }) && strncpy_limit(rt, dst, n) == strlcpy_limit(rt, dst, n),
{
}

/// A transformed string is the string and its NUL, as far as they fit.
pub proof fn law_transformed_bytes(b: Seq<u8>, n: int, i: int)
    requires
        0 <= n,
    ensures
        transformed(b, n).len() == if b.len() < n {
            b.len() as int + 1
        } else {
            n
        },
        0 <= i < transformed(b, n).len() ==> transformed(b, n)[i] == if i < b.len() {
            b[i]
        } else {
            0
        },
{
}

/// A copy is cut short where its source has no end within the bound, or where
/// fewer bytes are written than the string and its NUL take.
pub proof fn law_cut_short(len: int, written: int)
    ensures
        cut_short(len, false, written),
        cut_short(len, true, written) <==> written <= len,
        written > 0 ==> before_nul(written) + 1 == written,
        before_nul(0) == 0,
{
}

/// A copy of a string that is strict leaves no trace. Another one between strings
/// that are there asks the policy once, to write at the destination; it is adverse
/// where it is denied, or where the copy is cut short, which is recorded as a
/// repair.
pub proof fn law_trace_of_a_copy(m: Seq<u8>, rt: Runtime, dst: Ptr, src: Ptr)
    requires
        dst.addr != 0,
        src.addr != 0,
    ensures
        ({
            let ev = strcpy_events(m, rt, dst, src);
            let cut = !c_ended(m, src.at(), rt.bound(src)) || strcpy_written(m, rt, dst, src).len()
                <= c_len(m, src.at(), rt.bound(src));
            &&& rt.strict ==> ev.len() == 0
            &&& !rt.strict ==> asks(
                ev,
                Query {
                    addr: dst.addr,
                    len: 0,
                    write: true,
                    untracked: dst.remaining is None && src.remaining is None,
                },
            )
            &&& !rt.strict && rt.action is Deny ==> verdict(ev) == Some(true) && !healed(ev)
            &&& !rt.strict && !(rt.action is Deny) ==> verdict(ev) == Some(cut) && healed(ev) == cut
        }),
{
}

/// A bounded copy that is strict leaves no trace. Another one between strings that
/// are there asks the policy once, to write `n` bytes; it is adverse where it is
/// denied, or where either side is cut, which is recorded as a repair.
pub proof fn law_trace_of_a_bounded_copy(rt: Runtime, dst: Ptr, src: Ptr, n: usize)
    requires
        dst.addr != 0,
        src.addr != 0,
        n > 0,
    ensures
        ({
            let ev = strncpy_events(rt, dst, src, n);
            let cut = strncpy_limit(rt, dst, n) < n || strncpy_limit(rt, src, n) < n;
            &&& rt.strict ==> ev.len() == 0
            &&& !rt.strict ==> asks(
                ev,
                Query {
                    addr: dst.addr,
                    len: n,
                    write: true,
                    untracked: dst.remaining is None && src.remaining is None,
                },
            )
            &&& !rt.strict && rt.action is Deny ==> verdict(ev) == Some(true) && !healed(ev)
            &&& !rt.strict && !(rt.action is Deny) ==> verdict(ev) == Some(cut) && healed(ev) == cut
        }),
{
}

/// A sized copy that is strict leaves no trace. Another one asks the policy once,
/// to write as many bytes as the destination holds; it is adverse where it is
/// denied, where the source is bounded, or where the size is cut, which is
/// recorded as a repair.
pub proof fn law_trace_of_a_sized_copy(m: Seq<u8>, rt: Runtime, dst: Ptr, src: Ptr, n: usize)
    requires
        dst.addr != 0,
        src.addr != 0,
        n > 0,
    ensures
        ({
            let ev = strlcpy_events(m, rt, dst, src, n);
            let cut = strlcpy_limit(rt, dst, n) < n;
            &&& rt.strict ==> ev.len() == 0
            &&& !rt.strict ==> asks(
                ev,
                Query {
                    addr: dst.addr,
                    len: n,
                    write: true,
                    untracked: dst.remaining is None && src.remaining is None,
                },
            )
            &&& !rt.strict && rt.action is Deny ==> verdict(ev) == Some(true) && !healed(ev)
            &&& !rt.strict && !(rt.action is Deny) ==> verdict(ev) == Some(
                cut || rt.reach(src) is Some,
            ) && healed(ev) == cut
        }),
{
}

/// The place that a copy gives back as the end of the string holds its NUL.
pub proof fn law_end_of_a_copy_is_its_nul(m: Seq<u8>, rt: Runtime, dst: Ptr, src: Ptr)
    requires
        mapped(m, dst.at(), strcpy_written(m, rt, dst, src).len() as int),
        rt.reach(dst) != Some(0usize),
    ensures
        ({
            let w = strcpy_written(m, rt, dst, src);
            let end = dst.addr + before_nul(w.len() as int);
            &&& put(m, dst.at(), w)[end] == 0
            &&& end - dst.addr == w.len() - 1
        }),
{
}

} // verus!
