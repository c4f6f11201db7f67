//! Copying, moving and filling blocks.
use vstd::prelude::*;
use crate::membrane::{
    ask_one,
    ask_two,
    asks,
    report,
    verdict,
    CheckStage,
    Cost,
    Event,
    Membrane,
    Query,
    Runtime,
};
use crate::memory::{
    apart,
    block,
    blocks_meet,
    filled,
    mapped,
    put,
    raw_memcpy_bytes,
    raw_memmove_bytes,
    raw_memset_bytes,
    Memory,
    Ptr,
};
use crate::scan::{find, lemma_find};
use crate::search::{first_byte, is_byte, low_byte, to_low_byte};

verus! {

/// The longest copy that is tried as a hardware transaction.
pub const MEMCPY_HTM_MAX_BYTES: usize = 256;

/// A call goes past the membrane.
pub open spec fn bypasses(cx: Membrane) -> bool {
    cx.rt.strict || !cx.enters()
}

/// `memcpy` goes past the membrane: it validates only where calls are healed.
pub open spec fn memcpy_bypasses(cx: Membrane) -> bool {
    cx.rt.strict || !cx.rt.heals || !cx.enters()
}

/// How many of `n` bytes a call touches.
pub open spec fn touched(bypass: bool, rt: Runtime, n: usize) -> int {
    if bypass {
        n as int
    } else {
        rt.clamped(n) as int
    }
}

/// A trial of a copy as a hardware transaction.
pub open spec fn transaction(tried: bool, n: usize) -> Seq<Event> {
    if tried && n <= MEMCPY_HTM_MAX_BYTES {
        seq![Event::Transaction { len: n }]
    } else {
        seq![]
    }
}

/// Copies a block as a hardware transaction where it is small enough. Returns
/// whether that was done; the memory is unchanged otherwise.
fn try_memcpy_htm(
    mem: &mut Memory,
    dst: usize,
    src: usize,
    n: usize,
    cx: &mut Membrane,
) -> (r: bool)
    requires
        mapped(old(mem)@, dst as int, n as int),
        mapped(old(mem)@, src as int, n as int),
        !blocks_meet(dst as int, src as int, n as int),
    ensures
        r == (n <= MEMCPY_HTM_MAX_BYTES && old(cx).rt.htm_commits),
        final(mem)@ == if r {
            put(old(mem)@, dst as int, block(old(mem)@, src as int, n as int))
        } else {
            old(mem)@
        },
        final(cx).follows(*old(cx), transaction(true, n)),
{
    if n > MEMCPY_HTM_MAX_BYTES {
        return false;
    }
    cx.note(Event::Transaction { len: n });
    if cx.rt.htm_commits {
        raw_memcpy_bytes(mem, dst, src, n);
        true
    } else {
        false
    }
}

/// Copies a block, as a hardware transaction first where `tried` is set.
fn copy_block(mem: &mut Memory, dst: usize, src: usize, n: usize, tried: bool, cx: &mut Membrane)
    requires
        mapped(old(mem)@, dst as int, n as int),
        mapped(old(mem)@, src as int, n as int),
        !blocks_meet(dst as int, src as int, n as int),
    ensures
        final(mem)@ == put(old(mem)@, dst as int, block(old(mem)@, src as int, n as int)),
        final(cx).follows(*old(cx), transaction(tried, n)),
{
    if tried {
        if try_memcpy_htm(mem, dst, src, n, cx) {
            return;
        }
    }
    raw_memcpy_bytes(mem, dst, src, n);
}

/// The exchanges of a validated copy or fill of `n` bytes; `tail` is what follows
/// the bounds when bytes are touched.
pub open spec fn block_events(
    rt: Runtime,
    ask: Event,
    p: Ptr,
    q: Ptr,
    src: Option<usize>,
    dst: Option<usize>,
    n: usize,
    base: u64,
    tried: bool,
) -> Seq<Event> {
    if rt.denies() {
        seq![
            ask,
            rt.outcome_blocks(p, q, Some(CheckStage::Arena)),
            report(Cost::Scaled(base, n), true),
        ]
    } else if rt.clamped(n) == 0 {
        seq![ask] + rt.clamp_events(n, src, dst) + seq![
            rt.outcome_blocks(p, q, Some(CheckStage::Bounds)),
            report(Cost::Scaled(base, n), rt.clamps(n)),
        ]
    } else {
        seq![ask] + rt.clamp_events(n, src, dst) + transaction(tried, rt.clamped(n)) + seq![
            rt.outcome_blocks(p, q, None),
            report(Cost::Scaled(base, rt.clamped(n)), rt.clamps(n)),
        ]
    }
}

/// The exchanges of `memcpy` with the runtime.
pub open spec fn memcpy_events(cx: Membrane, dst: Ptr, src: Ptr, n: usize) -> Seq<Event> {
    let rt = cx.rt;
    if n == 0 || dst.null() || src.null() {
        seq![]
    } else if rt.strict || rt.raw() {
        transaction(rt.htm_forced, n)
    } else if !rt.heals {
        if rt.proof_carried {
            seq![
                Event::Decide(Query { addr: dst.addr, len: n, write: true, untracked: true }),
            ] + transaction(rt.htm_forced, n) + seq![report(Cost::Scaled(7, n), false)]
        } else {
            transaction(rt.htm_forced, n)
        }
    } else if !cx.enters() {
        seq![]
    } else {
        block_events(
            rt,
            ask_two(dst, src, n, true),
            dst,
            src,
            src.remaining,
            dst.remaining,
            n,
            7,
            true,
        )
    }
}

/// Copies `n` bytes from `src` to `dst`, which do not meet. Returns `dst`; null
/// for a null pointer and for a denied call. Nothing is copied, and `dst` comes
/// back, where `n` is zero.
pub fn memcpy(mem: &mut Memory, dst: Ptr, src: Ptr, n: usize, cx: &mut Membrane) -> (r: usize)
    requires
        n != 0 && !dst.null() && !src.null() && (memcpy_bypasses(*old(cx))
            || !old(cx).rt.denies()) ==> {
            let len = touched(memcpy_bypasses(*old(cx)), old(cx).rt, n);
            &&& mapped(old(mem)@, dst.at(), len)
            &&& mapped(old(mem)@, src.at(), len)
            &&& !blocks_meet(dst.at(), src.at(), len)
        },
    ensures
        n == 0 ==> r == dst.addr && final(mem)@ == old(mem)@,
        n != 0 && (dst.null() || src.null() || (!memcpy_bypasses(*old(cx)) && old(cx).rt.denies()))
            ==> r == 0 && final(mem)@ == old(mem)@,
        n != 0 && !dst.null() && !src.null() && (memcpy_bypasses(*old(cx)) || !old(cx).rt.denies())
            ==> r == dst.addr && final(mem)@ == put(
            old(mem)@,
            dst.at(),
            block(old(mem)@, src.at(), touched(memcpy_bypasses(*old(cx)), old(cx).rt, n)),
        ),
        final(cx).follows(*old(cx), memcpy_events(*old(cx), dst, src, n)),
{
    if n == 0 {
        return dst.addr;
    }
    if dst.is_null() || src.is_null() {
        return 0;
    }
    let forced: bool = cx.rt.htm_forced;
    if cx.rt.strict {
        copy_block(mem, dst.addr, src.addr, n, forced, cx);
        return dst.addr;
    }
    if cx.string_raw_passthrough_active() {
        copy_block(mem, dst.addr, src.addr, n, forced, cx);
        return dst.addr;
    }
    if !cx.rt.heals {
        if cx.rt.proof_carried {
            cx.note(
                Event::Decide(Query { addr: dst.addr, len: n, write: true, untracked: true }),
            );
            copy_block(mem, dst.addr, src.addr, n, forced, cx);
            cx.observe(Cost::Scaled(7, n), false);
        } else {
            copy_block(mem, dst.addr, src.addr, n, forced, cx);
        }
        return dst.addr;
    }
    if !cx.enter_string_membrane_guard() {
        raw_memcpy_bytes(mem, dst.addr, src.addr, n);
        return dst.addr;
    }
    let r: usize = memcpy_validating(mem, dst, src, n, cx);
    cx.leave_string_membrane_guard();
    r
}

fn memcpy_validating(mem: &mut Memory, dst: Ptr, src: Ptr, n: usize, cx: &mut Membrane) -> (r:
    usize)
    requires
        !old(cx).rt.denies() ==> {
            let len = old(cx).rt.clamped(n) as int;
            &&& mapped(old(mem)@, dst.at(), len)
            &&& mapped(old(mem)@, src.at(), len)
            &&& !blocks_meet(dst.at(), src.at(), len)
        },
    ensures
        old(cx).rt.denies() ==> r == 0 && final(mem)@ == old(mem)@,
        !old(cx).rt.denies() ==> r == dst.addr && final(mem)@ == put(
            old(mem)@,
            dst.at(),
            block(old(mem)@, src.at(), old(cx).rt.clamped(n) as int),
        ),
        final(cx).follows(
            *old(cx),
            block_events(
                old(cx).rt,
                ask_two(dst, src, n, true),
                dst,
                src,
                src.remaining,
                dst.remaining,
                n,
                7,
                true,
            ),
        ),
{
    if !cx.ask_two(dst, src, n, true) {
        cx.outcome_blocks(dst, src, Some(CheckStage::Arena));
        cx.observe(Cost::Scaled(7, n), true);
        return 0;
    }
    let (len, clamped) = cx.maybe_clamp_copy_len(n, src.remaining, dst.remaining);
    if len == 0 {
        cx.outcome_blocks(dst, src, Some(CheckStage::Bounds));
        cx.observe(Cost::Scaled(7, n), clamped);
        assert(mem@ =~= put(mem@, dst.at(), block(mem@, src.at(), 0)));
        return dst.addr;
    }
    copy_block(mem, dst.addr, src.addr, len, true, cx);
    cx.outcome_blocks(dst, src, None);
    cx.observe(Cost::Scaled(7, len), clamped);
    dst.addr
}

/// The exchanges of `memmove` with the runtime.
pub open spec fn memmove_events(cx: Membrane, dst: Ptr, src: Ptr, n: usize) -> Seq<Event> {
    if n == 0 || dst.null() || src.null() || bypasses(cx) {
        seq![]
    } else {
        block_events(
            cx.rt,
            ask_two(dst, src, n, true),
            dst,
            src,
            src.remaining,
            dst.remaining,
            n,
            8,
            false,
        )
    }
}

/// Moves `n` bytes from `src` to `dst`, which may meet. Returns as [`memcpy`]
/// does.
pub fn memmove(mem: &mut Memory, dst: Ptr, src: Ptr, n: usize, cx: &mut Membrane) -> (r: usize)
    requires
        n != 0 && !dst.null() && !src.null() && (bypasses(*old(cx)) || !old(cx).rt.denies()) ==> {
            let len = touched(bypasses(*old(cx)), old(cx).rt, n);
            mapped(old(mem)@, dst.at(), len) && mapped(old(mem)@, src.at(), len)
        },
    ensures
        n == 0 ==> r == dst.addr && final(mem)@ == old(mem)@,
        n != 0 && (dst.null() || src.null() || (!bypasses(*old(cx)) && old(cx).rt.denies())) ==> r
            == 0 && final(mem)@ == old(mem)@,
        n != 0 && !dst.null() && !src.null() && (bypasses(*old(cx)) || !old(cx).rt.denies()) ==> r
            == dst.addr && final(mem)@ == put(
            old(mem)@,
            dst.at(),
            block(old(mem)@, src.at(), touched(bypasses(*old(cx)), old(cx).rt, n)),
        ),
        final(cx).follows(*old(cx), memmove_events(*old(cx), dst, src, n)),
{
    if n == 0 {
        return dst.addr;
    }
    if dst.is_null() || src.is_null() {
        return 0;
    }
    if cx.rt.strict {
        raw_memmove_bytes(mem, dst.addr, src.addr, n);
        return dst.addr;
    }
    if !cx.enter_string_membrane_guard() {
        raw_memmove_bytes(mem, dst.addr, src.addr, n);
        return dst.addr;
    }
    let r: usize = memmove_validating(mem, dst, src, n, cx);
    cx.leave_string_membrane_guard();
    r
}

fn memmove_validating(mem: &mut Memory, dst: Ptr, src: Ptr, n: usize, cx: &mut Membrane) -> (r:
    usize)
    requires
        !old(cx).rt.denies() ==> mapped(old(mem)@, dst.at(), old(cx).rt.clamped(n) as int)
            && mapped(old(mem)@, src.at(), old(cx).rt.clamped(n) as int),
    ensures
        old(cx).rt.denies() ==> r == 0 && final(mem)@ == old(mem)@,
        !old(cx).rt.denies() ==> r == dst.addr && final(mem)@ == put(
            old(mem)@,
            dst.at(),
            block(old(mem)@, src.at(), old(cx).rt.clamped(n) as int),
        ),
        final(cx).follows(
            *old(cx),
            block_events(
                old(cx).rt,
                ask_two(dst, src, n, true),
                dst,
                src,
                src.remaining,
                dst.remaining,
                n,
                8,
                false,
            ),
        ),
{
    if !cx.ask_two(dst, src, n, true) {
        cx.outcome_blocks(dst, src, Some(CheckStage::Arena));
        cx.observe(Cost::Scaled(8, n), true);
        return 0;
    }
    let (len, clamped) = cx.maybe_clamp_copy_len(n, src.remaining, dst.remaining);
    if len == 0 {
        cx.outcome_blocks(dst, src, Some(CheckStage::Bounds));
        cx.observe(Cost::Scaled(8, n), clamped);
        assert(mem@ =~= put(mem@, dst.at(), block(mem@, src.at(), 0)));
        return dst.addr;
    }
    raw_memmove_bytes(mem, dst.addr, src.addr, len);
    cx.outcome_blocks(dst, src, None);
    cx.observe(Cost::Scaled(8, len), clamped);
    dst.addr
}

/// As [`memmove`], with source and destination the other way round.
pub fn bcopy(mem: &mut Memory, src: Ptr, dst: Ptr, n: usize, cx: &mut Membrane)
    requires
        n != 0 && !dst.null() && !src.null() && (bypasses(*old(cx)) || !old(cx).rt.denies()) ==> {
            let len = touched(bypasses(*old(cx)), old(cx).rt, n);
            mapped(old(mem)@, dst.at(), len) && mapped(old(mem)@, src.at(), len)
        },
    ensures
        final(mem)@ == if n == 0 || dst.null() || src.null() || (!bypasses(*old(cx))
            && old(cx).rt.denies()) {
            old(mem)@
        } else {
            put(
                old(mem)@,
                dst.at(),
                block(old(mem)@, src.at(), touched(bypasses(*old(cx)), old(cx).rt, n)),
            )
        },
        final(cx).follows(*old(cx), memmove_events(*old(cx), dst, src, n)),
{
    memmove(mem, dst, src, n, cx);
}

/// The exchanges of `memset` with the runtime.
pub open spec fn memset_events(cx: Membrane, dst: Ptr, n: usize) -> Seq<Event> {
    if n == 0 || dst.null() || bypasses(cx) {
        seq![]
    } else {
        block_events(
            cx.rt,
            ask_one(dst, n, true),
            dst,
            dst,
            None,
            dst.remaining,
            n,
            6,
            false,
        )
    }
}

/// Sets `n` bytes at `dst` to the low byte of `c`. Returns `dst`; null for a null
/// pointer and for a denied call.
pub fn memset(mem: &mut Memory, dst: Ptr, c: i32, n: usize, cx: &mut Membrane) -> (r: usize)
    requires
        n != 0 && !dst.null() && (bypasses(*old(cx)) || !old(cx).rt.denies()) ==> mapped(
            old(mem)@,
            dst.at(),
            touched(bypasses(*old(cx)), old(cx).rt, n),
        ),
    ensures
        n == 0 ==> r == dst.addr && final(mem)@ == old(mem)@,
        n != 0 && (dst.null() || (!bypasses(*old(cx)) && old(cx).rt.denies())) ==> r == 0
            && final(mem)@ == old(mem)@,
        n != 0 && !dst.null() && (bypasses(*old(cx)) || !old(cx).rt.denies()) ==> r == dst.addr
            && final(mem)@ == put(
            old(mem)@,
            dst.at(),
            filled(low_byte(c), touched(bypasses(*old(cx)), old(cx).rt, n)),
        ),
        final(cx).follows(*old(cx), memset_events(*old(cx), dst, n)),
{
    if n == 0 {
        return dst.addr;
    }
    if dst.is_null() {
        return 0;
    }
    let byte: u8 = to_low_byte(c);
    if cx.rt.strict {
        raw_memset_bytes(mem, dst.addr, byte, n);
        return dst.addr;
    }
    if !cx.enter_string_membrane_guard() {
        raw_memset_bytes(mem, dst.addr, byte, n);
        return dst.addr;
    }
    let r: usize = memset_validating(mem, dst, byte, n, cx);
    cx.leave_string_membrane_guard();
    r
}

/// As [`memset`], for memory that is not read again.
pub fn explicit_memset(
    mem: &mut Memory,
    dst: Ptr,
    c: i32,
    n: usize,
    cx: &mut Membrane,
) -> (r: usize)
    requires
        n != 0 && !dst.null() && (bypasses(*old(cx)) || !old(cx).rt.denies()) ==> mapped(
            old(mem)@,
            dst.at(),
            touched(bypasses(*old(cx)), old(cx).rt, n),
        ),
    ensures
        n == 0 ==> r == dst.addr && final(mem)@ == old(mem)@,
        n != 0 && (dst.null() || (!bypasses(*old(cx)) && old(cx).rt.denies())) ==> r == 0
            && final(mem)@ == old(mem)@,
        n != 0 && !dst.null() && (bypasses(*old(cx)) || !old(cx).rt.denies()) ==> r == dst.addr
            && final(mem)@ == put(
            old(mem)@,
            dst.at(),
            filled(low_byte(c), touched(bypasses(*old(cx)), old(cx).rt, n)),
        ),
        final(cx).follows(*old(cx), memset_events(*old(cx), dst, n)),
{
    memset(mem, dst, c, n, cx)
}

/// As [`explicit_memset`].
pub fn memset_explicit(
    mem: &mut Memory,
    dst: Ptr,
    c: i32,
    n: usize,
    cx: &mut Membrane,
) -> (r: usize)
    requires
        n != 0 && !dst.null() && (bypasses(*old(cx)) || !old(cx).rt.denies()) ==> mapped(
            old(mem)@,
            dst.at(),
            touched(bypasses(*old(cx)), old(cx).rt, n),
        ),
    ensures
        n == 0 ==> r == dst.addr && final(mem)@ == old(mem)@,
        n != 0 && (dst.null() || (!bypasses(*old(cx)) && old(cx).rt.denies())) ==> r == 0
            && final(mem)@ == old(mem)@,
        n != 0 && !dst.null() && (bypasses(*old(cx)) || !old(cx).rt.denies()) ==> r == dst.addr
            && final(mem)@ == put(
            old(mem)@,
            dst.at(),
            filled(low_byte(c), touched(bypasses(*old(cx)), old(cx).rt, n)),
        ),
        final(cx).follows(*old(cx), memset_events(*old(cx), dst, n)),
{
    explicit_memset(mem, dst, c, n, cx)
}

fn memset_validating(
    mem: &mut Memory,
    dst: Ptr,
    byte: u8,
    n: usize,
    cx: &mut Membrane,
) -> (r: usize)
    requires
        !old(cx).rt.denies() ==> mapped(old(mem)@, dst.at(), old(cx).rt.clamped(n) as int),
    ensures
        old(cx).rt.denies() ==> r == 0 && final(mem)@ == old(mem)@,
        !old(cx).rt.denies() ==> r == dst.addr && final(mem)@ == put(
            old(mem)@,
            dst.at(),
            filled(byte, old(cx).rt.clamped(n) as int),
        ),
        final(cx).follows(
            *old(cx),
            block_events(
                old(cx).rt,
                ask_one(dst, n, true),
                dst,
                dst,
                None,
                dst.remaining,
                n,
                6,
                false,
            ),
        ),
{
    if !cx.ask_one(dst, n, true) {
        cx.outcome_blocks(dst, dst, Some(CheckStage::Arena));
        cx.observe(Cost::Scaled(6, n), true);
        return 0;
    }
    let (len, clamped) = cx.maybe_clamp_copy_len(n, None, dst.remaining);
    if len == 0 {
        cx.outcome_blocks(dst, dst, Some(CheckStage::Bounds));
        cx.observe(Cost::Scaled(6, n), clamped);
        assert(mem@ =~= put(mem@, dst.at(), filled(byte, 0)));
        return dst.addr;
    }
    raw_memset_bytes(mem, dst.addr, byte, len);
    cx.outcome_blocks(dst, dst, None);
    cx.observe(Cost::Scaled(6, len), clamped);
    dst.addr
}

/// The exchanges of `mempcpy` with the runtime.
pub open spec fn mempcpy_events(cx: Membrane, dst: Ptr, src: Ptr, n: usize) -> Seq<Event> {
    if bypasses(cx) || n == 0 {
        seq![]
    } else if dst.null() || src.null() {
        seq![cx.rt.outcome_blocks(dst, src, Some(CheckStage::Null))]
    } else {
        block_events(
            cx.rt,
            ask_two(dst, src, n, true),
            dst,
            src,
            src.remaining,
            dst.remaining,
            n,
            7,
            false,
        )
    }
}

/// Copies `n` bytes from `src` to `dst`, which do not meet. Returns the address
/// behind the last byte copied; null for a null pointer and for a denied call.
pub fn mempcpy(mem: &mut Memory, dst: Ptr, src: Ptr, n: usize, cx: &mut Membrane) -> (r: usize)
    requires
        n != 0 && !dst.null() && !src.null() && (bypasses(*old(cx)) || !old(cx).rt.denies()) ==> {
            let len = touched(bypasses(*old(cx)), old(cx).rt, n);
            &&& mapped(old(mem)@, dst.at(), len)
            &&& mapped(old(mem)@, src.at(), len)
            &&& !blocks_meet(dst.at(), src.at(), len)
        },
    ensures
        n == 0 ==> r == dst.addr && final(mem)@ == old(mem)@,
        n != 0 && (dst.null() || src.null() || (!bypasses(*old(cx)) && old(cx).rt.denies())) ==> r
            == 0 && final(mem)@ == old(mem)@,
        n != 0 && !dst.null() && !src.null() && (bypasses(*old(cx)) || !old(cx).rt.denies()) ==> {
            let len = touched(bypasses(*old(cx)), old(cx).rt, n);
            &&& r == dst.addr + len
            &&& final(mem)@ == put(old(mem)@, dst.at(), block(old(mem)@, src.at(), len))
        },
        final(cx).follows(*old(cx), mempcpy_events(*old(cx), dst, src, n)),
{
    let size: usize = mem.size();
    if n == 0 {
        return dst.addr;
    }
    if cx.rt.strict {
        if dst.is_null() || src.is_null() {
            return 0;
        }
        raw_memcpy_bytes(mem, dst.addr, src.addr, n);
        return dst.addr + n;
    }
    if !cx.enter_string_membrane_guard() {
        if dst.is_null() || src.is_null() {
            return 0;
        }
        raw_memcpy_bytes(mem, dst.addr, src.addr, n);
        return dst.addr + n;
    }
    let r: usize = mempcpy_validating(mem, dst, src, n, cx);
    cx.leave_string_membrane_guard();
    r
}

/// As [`mempcpy`].
pub fn __mempcpy(mem: &mut Memory, dst: Ptr, src: Ptr, n: usize, cx: &mut Membrane) -> (r: usize)
    requires
        n != 0 && !dst.null() && !src.null() && (bypasses(*old(cx)) || !old(cx).rt.denies()) ==> {
            let len = touched(bypasses(*old(cx)), old(cx).rt, n);
            &&& mapped(old(mem)@, dst.at(), len)
            &&& mapped(old(mem)@, src.at(), len)
            &&& !blocks_meet(dst.at(), src.at(), len)
        },
    ensures
        n == 0 ==> r == dst.addr && final(mem)@ == old(mem)@,
        n != 0 && (dst.null() || src.null() || (!bypasses(*old(cx)) && old(cx).rt.denies())) ==> r
            == 0 && final(mem)@ == old(mem)@,
        n != 0 && !dst.null() && !src.null() && (bypasses(*old(cx)) || !old(cx).rt.denies()) ==> {
            let len = touched(bypasses(*old(cx)), old(cx).rt, n);
            &&& r == dst.addr + len
            &&& final(mem)@ == put(old(mem)@, dst.at(), block(old(mem)@, src.at(), len))
        },
        final(cx).follows(*old(cx), mempcpy_events(*old(cx), dst, src, n)),
{
    mempcpy(mem, dst, src, n, cx)
}

fn mempcpy_validating(mem: &mut Memory, dst: Ptr, src: Ptr, n: usize, cx: &mut Membrane) -> (r:
    usize)
    requires
        !dst.null() && !src.null() && !old(cx).rt.denies() ==> {
            let len = old(cx).rt.clamped(n) as int;
            &&& mapped(old(mem)@, dst.at(), len)
            &&& mapped(old(mem)@, src.at(), len)
            &&& !blocks_meet(dst.at(), src.at(), len)
        },
    ensures
        dst.null() || src.null() || old(cx).rt.denies() ==> r == 0 && final(mem)@ == old(mem)@,
        !dst.null() && !src.null() && !old(cx).rt.denies() ==> {
            let len = old(cx).rt.clamped(n) as int;
            &&& r == dst.addr + len
            &&& final(mem)@ == put(old(mem)@, dst.at(), block(old(mem)@, src.at(), len))
        },
        final(cx).follows(
            *old(cx),
            if dst.null() || src.null() {
                seq![old(cx).rt.outcome_blocks(dst, src, Some(CheckStage::Null))]
            } else {
                block_events(
                    old(cx).rt,
                    ask_two(dst, src, n, true),
                    dst,
                    src,
                    src.remaining,
                    dst.remaining,
                    n,
                    7,
                    false,
                )
            },
        ),
{
    let size: usize = mem.size();
    if dst.is_null() || src.is_null() {
        cx.outcome_blocks(dst, src, Some(CheckStage::Null));
        return 0;
    }
    if !cx.ask_two(dst, src, n, true) {
        cx.outcome_blocks(dst, src, Some(CheckStage::Arena));
        cx.observe(Cost::Scaled(7, n), true);
        return 0;
    }
    let (len, clamped) = cx.maybe_clamp_copy_len(n, src.remaining, dst.remaining);
    if len == 0 {
        cx.outcome_blocks(dst, src, Some(CheckStage::Bounds));
        cx.observe(Cost::Scaled(7, n), clamped);
        assert(mem@ =~= put(mem@, dst.at(), block(mem@, src.at(), 0)));
        return dst.addr;
    }
    raw_memcpy_bytes(mem, dst.addr, src.addr, len);
    cx.outcome_blocks(dst, src, None);
    cx.observe(Cost::Scaled(7, len), clamped);
    dst.addr + len
}

/// How many of `len` bytes `memccpy` copies: up to and with the first `c`.
pub open spec fn through_byte(m: Seq<u8>, src: int, len: int, c: u8) -> int {
    let i = find(m, src, len, is_byte(c));
    if i < len {
        i + 1
    } else {
        len
    }
}

/// `c` is among the `len` bytes at `src`.
pub open spec fn has_byte(m: Seq<u8>, src: int, len: int, c: u8) -> bool {
    find(m, src, len, is_byte(c)) < len
}

/// The exchanges of a call that takes an empty or null argument for a failed
/// check, and reports no bounds of its own.
pub open spec fn plain_block_events(
    cx: Membrane,
    absent: bool,
    ask: Event,
    p: Ptr,
    q: Ptr,
    src: Option<usize>,
    dst: Option<usize>,
    n: usize,
    base: u64,
) -> Seq<Event> {
    let rt = cx.rt;
    if bypasses(cx) {
        seq![]
    } else if absent {
        seq![rt.outcome_blocks(p, q, Some(CheckStage::Null))]
    } else if rt.denies() {
        seq![
            ask,
            rt.outcome_blocks(p, q, Some(CheckStage::Arena)),
            report(Cost::Scaled(base, n), true),
        ]
    } else {
        seq![ask] + rt.clamp_events(n, src, dst) + seq![
            rt.outcome_blocks(p, q, None),
            report(Cost::Scaled(base, rt.clamped(n)), rt.clamps(n)),
        ]
    }
}

/// The shared front of such a call: the bytes to touch, or `None` where it ends.
fn plain_block_len(
    absent: bool,
    p: Ptr,
    q: Ptr,
    two: bool,
    src: Option<usize>,
    dst: Option<usize>,
    n: usize,
    base: u64,
    cx: &mut Membrane,
) -> (r: Option<usize>)
    ensures
        ({
            let ask = if two {
                ask_two(p, q, n, true)
            } else {
                ask_one(p, n, true)
            };
            final(cx).follows(
                *old(cx),
                plain_block_events(*old(cx), absent, ask, p, q, src, dst, n, base),
            )
        }),
        match r {
            Some(len) => !absent && (bypasses(*old(cx)) || !old(cx).rt.denies()) && len == touched(
                bypasses(*old(cx)),
                old(cx).rt,
                n,
            ),
            None => absent || (!bypasses(*old(cx)) && old(cx).rt.denies()),
        },
{
    if cx.rt.strict || !cx.enter_string_membrane_guard() {
        return if absent {
            None
        } else {
            Some(n)
        };
    }
    if absent {
        cx.outcome_blocks(p, q, Some(CheckStage::Null));
        cx.leave_string_membrane_guard();
        return None;
    }
    let allowed: bool = if two {
        cx.ask_two(p, q, n, true)
    } else {
        cx.ask_one(p, n, true)
    };
    if !allowed {
        cx.outcome_blocks(p, q, Some(CheckStage::Arena));
        cx.observe(Cost::Scaled(base, n), true);
        cx.leave_string_membrane_guard();
        return None;
    }
    let (len, clamped) = cx.maybe_clamp_copy_len(n, src, dst);
    cx.outcome_blocks(p, q, None);
    cx.observe(Cost::Scaled(base, len), clamped);
    cx.leave_string_membrane_guard();
    Some(len)
}

/// Copies bytes from `src` to `dst`, which do not meet, up to and with the first
/// that is the low byte of `c`, and at most `n`. Returns the address behind that
/// byte at `dst`; null where it was not met, for a null pointer, no bytes and a
/// denied call.
pub fn memccpy(mem: &mut Memory, dst: Ptr, src: Ptr, c: i32, n: usize, cx: &mut Membrane) -> (r:
    usize)
    requires
        n != 0 && !dst.null() && !src.null() && (bypasses(*old(cx)) || !old(cx).rt.denies()) ==> {
            let len = touched(bypasses(*old(cx)), old(cx).rt, n);
            &&& mapped(old(mem)@, dst.at(), len)
            &&& mapped(old(mem)@, src.at(), len)
            &&& !blocks_meet(dst.at(), src.at(), len)
        },
    ensures
        n == 0 || dst.null() || src.null() || (!bypasses(*old(cx)) && old(cx).rt.denies()) ==> r
            == 0 && final(mem)@ == old(mem)@,
        n != 0 && !dst.null() && !src.null() && (bypasses(*old(cx)) || !old(cx).rt.denies()) ==> {
            let m = old(mem)@;
            let len = touched(bypasses(*old(cx)), old(cx).rt, n);
            let k = through_byte(m, src.at(), len, low_byte(c));
            &&& r == if has_byte(m, src.at(), len, low_byte(c)) {
                dst.addr + k
            } else {
                0
            }
            &&& final(mem)@ == put(m, dst.at(), block(m, src.at(), k))
        },
        final(cx).follows(
            *old(cx),
            plain_block_events(
                *old(cx),
                n == 0 || dst.null() || src.null(),
                ask_two(dst, src, n, true),
                dst,
                src,
                src.remaining,
                dst.remaining,
                n,
                7,
            ),
        ),
{
    let size: usize = mem.size();
    let absent: bool = n == 0 || dst.is_null() || src.is_null();
    let byte: u8 = to_low_byte(c);
    match plain_block_len(absent, dst, src, true, src.remaining, dst.remaining, n, 7, cx) {
        Some(len) => match first_byte(mem, src.addr, byte, len) {
            Some(i) => {
                raw_memcpy_bytes(mem, dst.addr, src.addr, i + 1);
                dst.addr + (i + 1)
            },
            None => {
                raw_memcpy_bytes(mem, dst.addr, src.addr, len);
                0
            },
        },
        None => 0,
    }
}

/// The memory after `bzero`.
pub open spec fn zeroed(m: Seq<u8>, cx: Membrane, s: Ptr, n: usize) -> Seq<u8> {
    if n == 0 || s.null() || (!bypasses(cx) && cx.rt.denies()) {
        m
    } else {
        put(m, s.at(), filled(0, touched(bypasses(cx), cx.rt, n)))
    }
}

/// The exchanges of `bzero` with the runtime.
pub open spec fn bzero_events(cx: Membrane, s: Ptr, n: usize) -> Seq<Event> {
    plain_block_events(
        cx,
        n == 0 || s.null(),
        ask_one(s, n, true),
        s,
        s,
        None,
        s.remaining,
        n,
        5,
    )
}

/// Sets `n` bytes at `s` to zero; nothing for a null pointer and for a denied
/// call.
pub fn bzero(mem: &mut Memory, s: Ptr, n: usize, cx: &mut Membrane)
    requires
        n != 0 && !s.null() && (bypasses(*old(cx)) || !old(cx).rt.denies()) ==> mapped(
            old(mem)@,
            s.at(),
            touched(bypasses(*old(cx)), old(cx).rt, n),
        ),
    ensures
        final(mem)@ == zeroed(old(mem)@, *old(cx), s, n),
        final(cx).follows(*old(cx), bzero_events(*old(cx), s, n)),
{
    let absent: bool = n == 0 || s.is_null();
    match plain_block_len(absent, s, s, false, None, s.remaining, n, 5, cx) {
        Some(len) => {
            raw_memset_bytes(mem, s.addr, 0, len);
        },
        None => {},
    }
}

/// As [`bzero`], for memory that is not read again.
pub fn explicit_bzero(mem: &mut Memory, s: Ptr, n: usize, cx: &mut Membrane)
    requires
        n != 0 && !s.null() && (bypasses(*old(cx)) || !old(cx).rt.denies()) ==> mapped(
            old(mem)@,
            s.at(),
            touched(bypasses(*old(cx)), old(cx).rt, n),
        ),
    ensures
        final(mem)@ == zeroed(old(mem)@, *old(cx), s, n),
        final(cx).follows(*old(cx), bzero_events(*old(cx), s, n)),
{
    bzero(mem, s, n, cx)
}

/// The bytes of `b` with each pair swapped; a last byte without a partner is
/// left out.
pub open spec fn swapped(b: Seq<u8>) -> Seq<u8> {
    Seq::new(
        (b.len() - b.len() % 2) as nat,
        |i: int|
            if i % 2 == 0 {
                b[i + 1]
            } else {
                b[i - 1]
            },
    )
}

/// Swaps the bytes of each pair of `n` bytes at `src` into `dst`, which do not
/// meet. Nothing for a null pointer, a count below one and a denied call.
pub fn swab(mem: &mut Memory, src: Ptr, dst: Ptr, n: isize, cx: &mut Membrane)
    requires
        n > 0 && !dst.null() && !src.null() && (bypasses(*old(cx)) || !old(cx).rt.denies()) ==> {
            let len = touched(bypasses(*old(cx)), old(cx).rt, n as usize);
            &&& mapped(old(mem)@, dst.at(), len)
            &&& mapped(old(mem)@, src.at(), len)
            &&& apart(dst.at(), len, src.at(), len)
        },
    ensures
        final(mem)@ == if n <= 0 || dst.null() || src.null() || (!bypasses(*old(cx))
            && old(cx).rt.denies()) {
            old(mem)@
        } else {
            put(
                old(mem)@,
                dst.at(),
                swapped(
                    block(
                        old(mem)@,
                        src.at(),
                        touched(bypasses(*old(cx)), old(cx).rt, n as usize),
                    ),
                ),
            )
        },
        final(cx).follows(
            *old(cx),
            if n <= 0 {
                seq![]
            } else {
                plain_block_events(
                    *old(cx),
                    dst.null() || src.null(),
                    ask_two(dst, src, n as usize, true),
                    dst,
                    src,
                    src.remaining,
                    dst.remaining,
                    n as usize,
                    5,
                )
            },
        ),
{
    if n <= 0 {
        return;
    }
    let count: usize = n as usize;
    let absent: bool = dst.is_null() || src.is_null();
    match plain_block_len(absent, dst, src, true, src.remaining, dst.remaining, count, 5, cx) {
        Some(len) => {
            swap_pairs(mem, dst.addr, src.addr, len);
        },
        None => {},
    }
}

fn swap_pairs(mem: &mut Memory, dst: usize, src: usize, n: usize)
    requires
        mapped(old(mem)@, dst as int, n as int),
        mapped(old(mem)@, src as int, n as int),
        apart(dst as int, n as int, src as int, n as int),
    ensures
        final(mem)@ == put(
            old(mem)@,
            dst as int,
            swapped(block(old(mem)@, src as int, n as int)),
        ),
{
    let size: usize = mem.size();
    let ghost m = mem@;
    let ghost out = swapped(block(m, src as int, n as int));
    let mut i: usize = 0;
    while n - i >= 2
        invariant
            m == old(mem)@,
            size == m.len(),
            size == mem@.len(),
            i <= n,
            i % 2 == 0,
            dst + n <= size,
            src + n <= size,
            apart(dst as int, n as int, src as int, n as int),
            out == swapped(block(m, src as int, n as int)),
            mem@ == put(m, dst as int, out.take(i as int)),
        decreases n - i,
    {
        let a: u8 = mem.load(src + i);
        let b: u8 = mem.load(src + (i + 1));
        mem.store(dst + i, b);
        mem.store(dst + (i + 1), a);
        proof {
            assert(a == m[src + i]);
            assert(b == m[src + i + 1]);
            assert(out[i as int] == b);
            assert(out[i + 1] == a);
        }
        i += 2;
        assert(mem@ =~= put(m, dst as int, out.take(i as int)));
    }
    assert(out.take(i as int) =~= out);
}

/// Swapping pairs twice gives the bytes back.
pub proof fn law_swab_twice(b: Seq<u8>)
    requires
        b.len() % 2 == 0,
    ensures
        swapped(swapped(b)) == b,
{
    assert(swapped(swapped(b)) =~= b);
}

/// A copy that the healing policy does not cut is the plain copy.
pub proof fn law_unclamped_touches_all(rt: Runtime, n: usize)
    requires
        !(rt.clamp is ClampSize),
    ensures
        touched(false, rt, n) == touched(true, rt, n),
{
}

/// A copy through a byte ends right behind its first place, and takes everything
/// where it does not stand.
pub proof fn law_copy_through_a_byte(m: Seq<u8>, src: int, len: int, c: u8)
    requires
        0 <= len,
    ensures
        ({
            let k = through_byte(m, src, len, c);
            &&& 0 <= k <= len
            &&& forall|j: int| src <= j < src + k - 1 ==> #[trigger] m[j] != c
            &&& has_byte(m, src, len, c) ==> k > 0 && m[src + k - 1] == c
            &&& !has_byte(m, src, len, c) ==> k == len && forall|j: int|
                src <= j < src + len ==> #[trigger] m[j] != c
        }),
{
    lemma_find(m, src, len, is_byte(c));
    let i = find(m, src, len, is_byte(c));
    assert forall|j: int| src <= j < src + i implies #[trigger] m[j] != c by {
        assert(!is_byte(c)(m[j]));
    }
}

/// The bytes of each pair change places, and an odd byte at the end is left out.
pub proof fn law_pairs_change_places(b: Seq<u8>, k: int)
    requires
        0 <= k,
        2 * k + 1 < b.len(),
    ensures
        swapped(b).len() == 2 * (b.len() / 2),
        swapped(b)[2 * k] == b[2 * k + 1],
        swapped(b)[2 * k + 1] == b[2 * k],
{
}

/// Zeroing makes every byte of the block zero and leaves the others alone.
pub proof fn law_zeroed_bytes(m: Seq<u8>, cx: Membrane, s: Ptr, n: usize, i: int)
    requires
        s.addr != 0,
        cx.rt.strict || !cx.enters() || (!(cx.rt.action is Deny) && !(cx.rt.clamp is ClampSize)),
        0 <= i < m.len(),
    ensures
        zeroed(m, cx, s, n).len() == m.len(),
        s.addr <= i < s.addr + n ==> zeroed(m, cx, s, n)[i] == 0,
        i < s.addr || s.addr + n <= i ==> zeroed(m, cx, s, n)[i] == m[i],
{
}

/// A call passes around the membrane where it is strict or does not enter it, and
/// a copy also where the mode does not repair; it then touches all bytes. Else the
/// healing policy may clamp the size of a repaired call.
pub proof fn law_calls_that_pass(cx: Membrane, n: usize)
    ensures
        bypasses(cx) <==> cx.rt.strict || !cx.enters(),
        memcpy_bypasses(cx) <==> bypasses(cx) || !cx.rt.heals,
        touched(true, cx.rt, n) == n,
        !(cx.rt.heals || cx.rt.action is Repair) ==> touched(false, cx.rt, n) == n,
        (cx.rt.heals || cx.rt.action is Repair) && n > 0 && cx.rt.clamp is ClampSize ==> touched(
            false,
            cx.rt,
            n,
        ) == cx.rt.clamp->clamped,
{
}

/// The trace of a call on blocks that the membrane serves.
proof fn lemma_block_trace(
    rt: Runtime,
    q: Query,
    p: Ptr,
    r: Ptr,
    src: Option<usize>,
    dst: Option<usize>,
    n: usize,
    base: u64,
    tried: bool,
)
    requires
        n > 0,
    ensures
        ({
            let ev = block_events(rt, Event::Decide(q), p, r, src, dst, n, base, tried);
            &&& asks(ev, q)
            &&& verdict(ev) == Some(
                rt.action is Deny || (rt.clamp is ClampSize && (rt.heals || rt.action is Repair)),
            )
        }),
{
}

/// A call on blocks that passes around the membrane leaves no trace. Another one
/// asks the policy once, to write `n` bytes at the destination; it is adverse where
/// it is denied, or where the healing policy clamps the size.
pub proof fn law_trace_of_a_block_call(cx: Membrane, dst: Ptr, src: Ptr, n: usize)
    requires
        dst.addr != 0,
        src.addr != 0,
        n > 0,
    ensures
        ({
            let rt = cx.rt;
            let one = Query { addr: dst.addr, len: n, write: true, untracked: dst.remaining is None };
            let two = Query {
                addr: dst.addr,
                len: n,
                write: true,
                untracked: dst.remaining is None && src.remaining is None,
            };
            let adverse = Some(
                rt.action is Deny || (rt.clamp is ClampSize && (rt.heals || rt.action is Repair)),
            );
            let moved = memmove_events(cx, dst, src, n);
            let set = memset_events(cx, dst, n);
            let copied = mempcpy_events(cx, dst, src, n);
            let zeroed = bzero_events(cx, dst, n);
            &&& rt.strict || !cx.enters() ==> moved.len() == 0 && set.len() == 0 && copied.len()
                == 0 && zeroed.len() == 0
            &&& !rt.strict && cx.enters() ==> {
                &&& asks(moved, two) && verdict(moved) == adverse
                &&& asks(copied, two) && verdict(copied) == adverse
                &&& asks(set, one) && verdict(set) == adverse
                &&& asks(zeroed, one) && verdict(zeroed) == adverse
            }
        }),
{
    let one = Query { addr: dst.addr, len: n, write: true, untracked: dst.remaining is None };
    let two = Query {
        addr: dst.addr,
        len: n,
        write: true,
        untracked: dst.remaining is None && src.remaining is None,
    };
    let s = src.remaining;
    let d = dst.remaining;
    lemma_block_trace(cx.rt, two, dst, src, s, d, n, 8, false);
    lemma_block_trace(cx.rt, two, dst, src, s, d, n, 7, false);
    lemma_block_trace(cx.rt, one, dst, dst, None, d, n, 6, false);
    if !bypasses(cx) {
        lemma_zeroing_trace(cx, dst, n);
    }
}

/// The trace of a call that zeroes a block.
proof fn lemma_zeroing_trace(cx: Membrane, dst: Ptr, n: usize)
    requires
        dst.addr != 0,
        n > 0,
        !bypasses(cx),
    ensures
        ({
            let rt = cx.rt;
            let ev = bzero_events(cx, dst, n);
            &&& asks(
                ev,
                Query { addr: dst.addr, len: n, write: true, untracked: dst.remaining is None },
            )
            &&& verdict(ev) == Some(
                rt.action is Deny || (rt.clamp is ClampSize && (rt.heals || rt.action is Repair)),
            )
        }),
{
}

/// A copy that passes around the membrane leaves no trace but a transaction that
/// was tried, where one is forced and the copy is short enough. A copy in a mode
/// that repairs asks the policy once, to write `n` bytes at the destination; it is
/// adverse where it is denied, or where the healing policy clamps the size.
pub proof fn law_trace_of_a_block_copy(cx: Membrane, dst: Ptr, src: Ptr, n: usize)
    requires
        dst.addr != 0,
        src.addr != 0,
        n > 0,
    ensures
        ({
            let rt = cx.rt;
            let ev = memcpy_events(cx, dst, src, n);
            &&& rt.strict || rt.raw() ==> ev == if rt.htm_forced && n <= MEMCPY_HTM_MAX_BYTES {
                seq![Event::Transaction { len: n }]
            } else {
                seq![]
            }
            &&& !rt.strict && rt.heals && cx.enters() ==> asks(
                ev,
                Query {
                    addr: dst.addr,
                    len: n,
                    write: true,
                    untracked: dst.remaining is None && src.remaining is None,
                },
            ) && verdict(ev) == Some(rt.action is Deny || rt.clamp is ClampSize)
        }),
{
}

} // verus!
