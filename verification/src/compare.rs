//! Comparing strings and blocks.
use vstd::prelude::*;
use crate::membrane::{
    ask_two,
    asks,
    healed,
    report,
    truncation,
    verdict,
    CheckStage,
    Cost,
    Event,
    Membrane,
    Query,
    Runtime,
};
use crate::memory::{block, mapped, Memory, Ptr};
use crate::order::{
    at,
    block_order,
    first_difference,
    law_block_order_is_zero_on_equals,
    min_bound,
    order,
    parting,
    size_of,
    smaller_bound,
    walk,
    walk_apart,
};
use crate::scan::{c_bytes, c_len, lemma_c_len, readable, scan_c_string};

verus! {

/// Where two strings part, and whether that is the bound.
pub fn scan_strcmp(mem: &Memory, s1: usize, s2: usize, bound: Option<usize>) -> (r: (usize, bool))
    requires
        readable(mem@, at(s1), bound),
        readable(mem@, at(s2), bound),
    ensures
        r.0 == parting(c_bytes(mem@, at(s1), bound), c_bytes(mem@, at(s2), bound), false),
        r.1 == (bound == Some(r.0)),
{
    let (i, hit, _d) = walk(mem, s1, s2, bound, false);
    (i, hit)
}

/// As [`scan_strcmp`].
pub fn bench_scan_strcmp(mem: &Memory, s1: usize, s2: usize, bound: Option<usize>) -> (r: (
    usize,
    bool,
))
    requires
        readable(mem@, at(s1), bound),
        readable(mem@, at(s2), bound),
    ensures
        r.0 == parting(c_bytes(mem@, at(s1), bound), c_bytes(mem@, at(s2), bound), false),
        r.1 == (bound == Some(r.0)),
{
    scan_strcmp(mem, s1, s2, bound)
}

/// The order of two strings without regard to ASCII case, and how many bytes of
/// each were looked at.
pub fn scan_strcasecmp(mem: &Memory, s1: usize, s2: usize, bound: Option<usize>) -> (r: (
    i32,
    usize,
))
    requires
        readable(mem@, at(s1), bound),
        readable(mem@, at(s2), bound),
    ensures
        ({
            let x = c_bytes(mem@, at(s1), bound);
            let y = c_bytes(mem@, at(s2), bound);
            &&& r.0 == order(x, y, true)
            &&& r.1 == if bound == Some(size_of(parting(x, y, true))) {
                parting(x, y, true)
            } else {
                parting(x, y, true) + 1
            }
        }),
{
    let size: usize = mem.size();
    let (i, hit, d) = walk(mem, s1, s2, bound, true);
    if hit {
        (d, i)
    } else {
        (d, i + 1)
    }
}

/// The order of two strings without regard to ASCII case.
pub fn bench_scan_strcasecmp(mem: &Memory, s1: usize, s2: usize, bound: usize) -> (r: i32)
    requires
        readable(mem@, at(s1), Some(bound)),
        readable(mem@, at(s2), Some(bound)),
    ensures
        r == order(
            c_bytes(mem@, at(s1), Some(bound)),
            c_bytes(mem@, at(s2), Some(bound)),
            true,
        ),
{
    let (d, _span) = scan_strcasecmp(mem, s1, s2, Some(bound));
    d
}

/// The order of the bytes `lo` to `hi` of two blocks.
pub fn memcmp_first_diff(mem: &Memory, s1: usize, s2: usize, lo: usize, hi: usize) -> (r: i32)
    requires
        lo < hi ==> mapped(mem@, s1 + lo, hi - lo) && mapped(mem@, s2 + lo, hi - lo),
    ensures
        r == if lo < hi {
            block_order(block(mem@, s1 + lo, hi - lo), block(mem@, s2 + lo, hi - lo))
        } else {
            0
        },
{
    let size: usize = mem.size();
    if lo < hi {
        first_difference(mem, s1 + lo, s2 + lo, hi - lo)
    } else {
        0
    }
}

/// The order of two blocks of `n` bytes.
pub fn raw_dispatch_memcmp_bytes(mem: &Memory, s1: usize, s2: usize, n: usize) -> (r: i32)
    requires
        mapped(mem@, at(s1), at(n)),
        mapped(mem@, at(s2), at(n)),
    ensures
        r == block_order(block(mem@, at(s1), at(n)), block(mem@, at(s2), at(n))),
{
    memcmp_first_diff(mem, s1, s2, 0, n)
}

/// How many of `n` bytes `memcmp` compares.
pub open spec fn memcmp_len(rt: Runtime, n: usize) -> usize {
    if rt.strict || rt.raw() {
        n
    } else {
        rt.clamped(n)
    }
}

/// `memcmp` compares the blocks: it is not denied.
pub open spec fn memcmp_serves(rt: Runtime) -> bool {
    rt.strict || rt.raw() || !rt.denies()
}

/// The exchanges of `memcmp` with the runtime.
pub open spec fn memcmp_events(rt: Runtime, s1: Ptr, s2: Ptr, n: usize) -> Seq<Event> {
    if n == 0 {
        seq![]
    } else if s1.null() || s2.null() {
        if rt.raw() {
            seq![]
        } else {
            seq![rt.outcome_two(s1, s2, CheckStage::Null)]
        }
    } else if rt.strict || rt.raw() {
        seq![]
    } else if rt.denies() {
        seq![
            ask_two(s1, s2, n, false),
            rt.outcome_two(s1, s2, CheckStage::Arena),
            report(Cost::Scaled(6, n), true),
        ]
    } else {
        let len = rt.clamped(n);
        seq![ask_two(s1, s2, n, false)] + rt.clamp_events(n, s1.remaining, s2.remaining) + seq![
            rt.outcome_two(s1, s2, CheckStage::Bounds),
            report(
                Cost::Scaled(
                    6,
                    if len == 0 {
                        n
                    } else {
                        len
                    },
                ),
                len == 0 || len < n,
            ),
        ]
    }
}

/// The order of two blocks of `n` bytes: the sign of the first difference, `0`
/// where there is none, for a null pointer and for a denied call.
pub fn memcmp(mem: &Memory, s1: Ptr, s2: Ptr, n: usize, cx: &mut Membrane) -> (r: i32)
    requires
        n != 0 && !s1.null() && !s2.null() && memcmp_serves(old(cx).rt) ==> mapped(
            mem@,
            s1.at(),
            at(memcmp_len(old(cx).rt, n)),
        ) && mapped(mem@, s2.at(), at(memcmp_len(old(cx).rt, n))),
    ensures
        r == if n == 0 || s1.null() || s2.null() || !memcmp_serves(old(cx).rt) {
            0
        } else {
            block_order(
                block(mem@, s1.at(), at(memcmp_len(old(cx).rt, n))),
                block(mem@, s2.at(), at(memcmp_len(old(cx).rt, n))),
            )
        },
        final(cx).follows(*old(cx), memcmp_events(old(cx).rt, s1, s2, n)),
{
    if n == 0 {
        return 0;
    }
    if s1.is_null() || s2.is_null() {
        if !cx.string_raw_passthrough_active() {
            cx.outcome_two(s1, s2, CheckStage::Null);
        }
        return 0;
    }
    if cx.rt.strict {
        return raw_dispatch_memcmp_bytes(mem, s1.addr, s2.addr, n);
    }
    if cx.string_raw_passthrough_active() {
        return raw_dispatch_memcmp_bytes(mem, s1.addr, s2.addr, n);
    }
    memcmp_validating(mem, s1, s2, n, cx)
}

fn memcmp_validating(mem: &Memory, s1: Ptr, s2: Ptr, n: usize, cx: &mut Membrane) -> (r: i32)
    requires
        n != 0 && !s1.null() && !s2.null() && !old(cx).rt.strict && !old(cx).rt.raw(),
        !old(cx).rt.denies() ==> mapped(mem@, s1.at(), at(old(cx).rt.clamped(n))) && mapped(
            mem@,
            s2.at(),
            at(old(cx).rt.clamped(n)),
        ),
    ensures
        r == if old(cx).rt.denies() {
            0
        } else {
            block_order(
                block(mem@, s1.at(), at(old(cx).rt.clamped(n))),
                block(mem@, s2.at(), at(old(cx).rt.clamped(n))),
            )
        },
        final(cx).follows(*old(cx), memcmp_events(old(cx).rt, s1, s2, n)),
{
    if !cx.ask_two(s1, s2, n, false) {
        cx.outcome_two(s1, s2, CheckStage::Arena);
        cx.observe(Cost::Scaled(6, n), true);
        return 0;
    }
    let (len, _clamped) = cx.maybe_clamp_copy_len(n, s1.remaining, s2.remaining);
    if len == 0 {
        cx.outcome_two(s1, s2, CheckStage::Bounds);
        cx.observe(Cost::Scaled(6, n), true);
        return 0;
    }
    let out: i32 = raw_dispatch_memcmp_bytes(mem, s1.addr, s2.addr, len);
    cx.outcome_two(s1, s2, CheckStage::Bounds);
    cx.observe(Cost::Scaled(6, len), len < n);
    out
}

/// As [`memcmp`]: `0` exactly where the compared bytes are equal.
pub fn __memcmpeq(mem: &Memory, s1: Ptr, s2: Ptr, n: usize, cx: &mut Membrane) -> (r: i32)
    requires
        n != 0 && !s1.null() && !s2.null() && memcmp_serves(old(cx).rt) ==> mapped(
            mem@,
            s1.at(),
            at(memcmp_len(old(cx).rt, n)),
        ) && mapped(mem@, s2.at(), at(memcmp_len(old(cx).rt, n))),
    ensures
        r == if n == 0 || s1.null() || s2.null() || !memcmp_serves(old(cx).rt) {
            0
        } else {
            block_order(
                block(mem@, s1.at(), at(memcmp_len(old(cx).rt, n))),
                block(mem@, s2.at(), at(memcmp_len(old(cx).rt, n))),
            )
        },
        final(cx).follows(*old(cx), memcmp_events(old(cx).rt, s1, s2, n)),
{
    memcmp(mem, s1, s2, n, cx)
}

/// Whether two blocks of `n` bytes differ: `0` where they are equal. A null
/// pointer equals a null pointer only.
pub fn bcmp(mem: &Memory, s1: usize, s2: usize, n: usize) -> (r: i32)
    requires
        s1 != 0 && s2 != 0 ==> mapped(mem@, at(s1), at(n)) && mapped(mem@, at(s2), at(n)),
    ensures
        r == differ(mem@, s1, s2, n),
{
    if n == 0 {
        return 0;
    }
    if s1 == 0 || s2 == 0 {
        return if s1 == s2 {
            0
        } else {
            1
        };
    }
    let d: i32 = raw_dispatch_memcmp_bytes(mem, s1, s2, n);
    proof {
        law_block_order_is_zero_on_equals(
            block(mem@, at(s1), at(n)),
            block(mem@, at(s2), at(n)),
        );
    }
    if d == 0 {
        0
    } else {
        1
    }
}

/// `1` where two blocks of `n` bytes differ, else `0`.
pub open spec fn differ(m: Seq<u8>, s1: usize, s2: usize, n: usize) -> int {
    if n == 0 {
        0
    } else if s1 == 0 || s2 == 0 {
        if s1 == s2 {
            0
        } else {
            1
        }
    } else if block(m, at(s1), at(n)) == block(m, at(s2), at(n)) {
        0
    } else {
        1
    }
}

/// The bits in which two blocks of `n` bytes differ anywhere, all bytes looked
/// at.
fn fold_differences(mem: &Memory, s1: usize, s2: usize, n: usize) -> (r: u8)
    requires
        mapped(mem@, at(s1), at(n)),
        mapped(mem@, at(s2), at(n)),
    ensures
        r == 0 <==> block(mem@, at(s1), at(n)) == block(mem@, at(s2), at(n)),
{
    let size: usize = mem.size();
    let ghost m = mem@;
    let mut acc: u8 = 0;
    let mut i: usize = 0;
    while i < n
        invariant
            m == mem@,
            size == m.len(),
            i <= n,
            s1 + n <= size,
            s2 + n <= size,
            acc == 0 <==> forall|j: int| 0 <= j < i ==> #[trigger] m[s1 + j] == m[s2 + j],
        decreases n - i,
    {
        let a: u8 = mem.load(s1 + i);
        let b: u8 = mem.load(s2 + i);
        let next: u8 = acc | (a ^ b);
        assert(next == 0 <==> acc == 0 && a == b) by (bit_vector)
            requires
                next == acc | (a ^ b),
        ;
        acc = next;
        i += 1;
    }
    proof {
        let x = block(m, at(s1), at(n));
        let y = block(m, at(s2), at(n));
        if acc == 0 {
            assert(x =~= y);
        }
        if x == y {
            assert forall|j: int| 0 <= j < i implies #[trigger] m[s1 + j] == m[s2 + j] by {
                assert(x[j] == y[j]);
            }
        }
    }
    acc
}

/// As [`bcmp`], looking at every byte whatever the blocks hold.
pub fn timingsafe_bcmp(mem: &Memory, b1: usize, b2: usize, n: usize) -> (r: i32)
    requires
        b1 != 0 && b2 != 0 ==> mapped(mem@, at(b1), at(n)) && mapped(mem@, at(b2), at(n)),
    ensures
        r == differ(mem@, b1, b2, n),
{
    if n == 0 {
        return 0;
    }
    if b1 == 0 || b2 == 0 {
        return if b1 == b2 {
            0
        } else {
            1
        };
    }
    if fold_differences(mem, b1, b2, n) == 0 {
        0
    } else {
        1
    }
}

/// The order of two blocks of `n` bytes, looking at every byte whatever they
/// hold. A null pointer orders before any other.
pub fn timingsafe_memcmp(mem: &Memory, b1: usize, b2: usize, n: usize) -> (r: i32)
    requires
        b1 != 0 && b2 != 0 ==> mapped(mem@, at(b1), at(n)) && mapped(mem@, at(b2), at(n)),
    ensures
        r == if n == 0 || (b1 == 0 && b2 == 0) {
            0
        } else if b1 == 0 {
            -1
        } else if b2 == 0 {
            1
        } else {
            block_order(block(mem@, at(b1), at(n)), block(mem@, at(b2), at(n)))
        },
{
    if n == 0 {
        return 0;
    }
    if b1 == 0 || b2 == 0 {
        if b1 == b2 {
            return 0;
        }
        return if b1 == 0 {
            -1
        } else {
            1
        };
    }
    let size: usize = mem.size();
    let ghost m = mem@;
    let ghost x = block(m, at(b1), at(n));
    let ghost y = block(m, at(b2), at(n));
    let mut out: i32 = 0;
    let mut i: usize = n;
    while i > 0
        invariant
            m == mem@,
            size == m.len(),
            i <= n,
            b1 + n <= size,
            b2 + n <= size,
            out == block_order(block(m, b1 + i, n - i), block(m, b2 + i, n - i)),
        decreases i,
    {
        i -= 1;
        let a: u8 = mem.load(b1 + i);
        let b: u8 = mem.load(b2 + i);
        proof {
            let xs = block(m, b1 + i, n - i);
            let ys = block(m, b2 + i, n - i);
            assert(xs.drop_first() =~= block(m, b1 + i + 1, n - i - 1));
            assert(ys.drop_first() =~= block(m, b2 + i + 1, n - i - 1));
            assert(xs[0] == a && ys[0] == b);
        }
        let less: bool = a < b;
        let more: bool = a > b;
        out = if less {
            -1
        } else if more {
            1
        } else {
            out
        };
    }
    out
}

/// `1` where two blocks of `len` bytes are equal, else `0`; all bytes are looked
/// at.
pub fn consttime_memequal(mem: &Memory, b1: usize, b2: usize, len: usize) -> (r: i32)
    requires
        b1 != 0 && b2 != 0 ==> mapped(mem@, at(b1), at(len)) && mapped(mem@, at(b2), at(len)),
    ensures
        r == 1 - differ(mem@, b1, b2, len),
{
    if timingsafe_bcmp(mem, b1, b2, len) == 0 {
        1
    } else {
        0
    }
}

/// `0` where two blocks of `n` bytes are equal, else `1`; all bytes are looked
/// at.
pub fn consttime_bcmp(mem: &Memory, s1: usize, s2: usize, n: usize) -> (r: i32)
    requires
        s1 != 0 && s2 != 0 ==> mapped(mem@, at(s1), at(n)) && mapped(mem@, at(s2), at(n)),
    ensures
        r == differ(mem@, s1, s2, n),
{
    if timingsafe_bcmp(mem, s1, s2, n) == 0 {
        0
    } else {
        1
    }
}

/// The bound of a comparison of two strings, of at most `n` bytes where one is
/// given.
pub open spec fn strcmp_bound(rt: Runtime, s1: Ptr, s2: Ptr, n: Option<usize>) -> Option<usize> {
    min_bound(min_bound(rt.reach(s1), rt.reach(s2)), n)
}

/// The exchanges of `strcmp` with the runtime.
pub open spec fn strcmp_events(m: Seq<u8>, rt: Runtime, s1: Ptr, s2: Ptr) -> Seq<Event> {
    if rt.strict {
        seq![]
    } else if s1.null() || s2.null() {
        seq![rt.outcome_two(s1, s2, CheckStage::Null)]
    } else if rt.denies() {
        seq![
            ask_two(s1, s2, 0, false),
            rt.outcome_two(s1, s2, CheckStage::Arena),
            report(Cost::Flat(6), true),
        ]
    } else {
        let bound = strcmp_bound(rt, s1, s2, None);
        let p = size_of(parting(c_bytes(m, s1.at(), bound), c_bytes(m, s2.at(), bound), false));
        if bound == Some(p) {
            seq![
                ask_two(s1, s2, 0, false),
                truncation(p, p),
                rt.outcome_two(s1, s2, CheckStage::Bounds),
                report(Cost::Scaled(7, p), true),
            ]
        } else {
            seq![
                ask_two(s1, s2, 0, false),
                rt.outcome_two(s1, s2, CheckStage::Bounds),
                report(Cost::Scaled(7, size_of(p + 1)), false),
            ]
        }
    }
}

/// The order of two strings: the difference of the bytes at which they part, `0`
/// for a null pointer and for a denied call.
///
/// A repairing call takes the smaller allocation for the end of both strings.
pub fn strcmp(mem: &Memory, s1: Ptr, s2: Ptr, cx: &mut Membrane) -> (r: i32)
    requires
        !s1.null() && !s2.null() && old(cx).rt.serves() ==> readable(
            mem@,
            s1.at(),
            strcmp_bound(old(cx).rt, s1, s2, None),
        ) && readable(mem@, s2.at(), strcmp_bound(old(cx).rt, s1, s2, None)),
    ensures
        r == if s1.null() || s2.null() || !old(cx).rt.serves() {
            0
        } else {
            order(
                c_bytes(mem@, s1.at(), strcmp_bound(old(cx).rt, s1, s2, None)),
                c_bytes(mem@, s2.at(), strcmp_bound(old(cx).rt, s1, s2, None)),
                false,
            )
        },
        final(cx).follows(*old(cx), strcmp_events(mem@, old(cx).rt, s1, s2)),
{
    if cx.rt.strict {
        if s1.is_null() || s2.is_null() {
            return 0;
        }
        let (_i, _hit, d) = walk(mem, s1.addr, s2.addr, None, false);
        return d;
    }
    strcmp_validating(mem, s1, s2, cx)
}

/// As [`strcoll`], whatever the locale.
pub fn __strcoll_l(mem: &Memory, s1: Ptr, s2: Ptr, _locale: usize, cx: &mut Membrane) -> (r: i32)
    requires
        !s1.null() && !s2.null() && old(cx).rt.serves() ==> readable(
            mem@,
            s1.at(),
            strcmp_bound(old(cx).rt, s1, s2, None),
        ) && readable(mem@, s2.at(), strcmp_bound(old(cx).rt, s1, s2, None)),
    ensures
        r == if s1.null() || s2.null() || !old(cx).rt.serves() {
            0
        } else {
            order(
                c_bytes(mem@, s1.at(), strcmp_bound(old(cx).rt, s1, s2, None)),
                c_bytes(mem@, s2.at(), strcmp_bound(old(cx).rt, s1, s2, None)),
                false,
            )
        },
        final(cx).follows(*old(cx), strcmp_events(mem@, old(cx).rt, s1, s2)),
{
    strcmp(mem, s1, s2, cx)
}

/// The order of two strings in the locale, which is that of their bytes; see
/// [`strcmp`].
pub fn strcoll(mem: &Memory, s1: Ptr, s2: Ptr, cx: &mut Membrane) -> (r: i32)
    requires
        !s1.null() && !s2.null() && old(cx).rt.serves() ==> readable(
            mem@,
            s1.at(),
            strcmp_bound(old(cx).rt, s1, s2, None),
        ) && readable(mem@, s2.at(), strcmp_bound(old(cx).rt, s1, s2, None)),
    ensures
        r == if s1.null() || s2.null() || !old(cx).rt.serves() {
            0
        } else {
            order(
                c_bytes(mem@, s1.at(), strcmp_bound(old(cx).rt, s1, s2, None)),
                c_bytes(mem@, s2.at(), strcmp_bound(old(cx).rt, s1, s2, None)),
                false,
            )
        },
        final(cx).follows(*old(cx), strcmp_events(mem@, old(cx).rt, s1, s2)),
{
    strcmp(mem, s1, s2, cx)
}

fn strcmp_validating(mem: &Memory, s1: Ptr, s2: Ptr, cx: &mut Membrane) -> (r: i32)
    requires
        !old(cx).rt.strict,
        !s1.null() && !s2.null() && !old(cx).rt.denies() ==> readable(
            mem@,
            s1.at(),
            strcmp_bound(old(cx).rt, s1, s2, None),
        ) && readable(mem@, s2.at(), strcmp_bound(old(cx).rt, s1, s2, None)),
    ensures
        r == if s1.null() || s2.null() || old(cx).rt.denies() {
            0
        } else {
            order(
                c_bytes(mem@, s1.at(), strcmp_bound(old(cx).rt, s1, s2, None)),
                c_bytes(mem@, s2.at(), strcmp_bound(old(cx).rt, s1, s2, None)),
                false,
            )
        },
        final(cx).follows(*old(cx), strcmp_events(mem@, old(cx).rt, s1, s2)),
{
    let size: usize = mem.size();
    if s1.is_null() || s2.is_null() {
        cx.outcome_two(s1, s2, CheckStage::Null);
        return 0;
    }
    if !cx.ask_two(s1, s2, 0, false) {
        cx.outcome_two(s1, s2, CheckStage::Arena);
        cx.observe(Cost::Flat(6), true);
        return 0;
    }
    let bound: Option<usize> = smaller_bound(cx.bound(s1), cx.bound(s2));
    let (i, hit, d) = walk(mem, s1.addr, s2.addr, bound, false);
    let span: usize = if hit {
        i
    } else {
        i + 1
    };
    if hit {
        cx.record_truncation(i, i);
    }
    cx.outcome_two(s1, s2, CheckStage::Bounds);
    cx.observe(Cost::Scaled(7, span), hit);
    d
}

/// The record of a comparison that was cut to `limit` of `n` bytes.
pub open spec fn limit_note(n: usize, limit: usize) -> Seq<Event> {
    if limit < n {
        seq![truncation(n, limit)]
    } else {
        seq![]
    }
}

/// The bytes that a comparison of at most `n` looks at.
pub open spec fn strncmp_limit(rt: Runtime, s1: Ptr, s2: Ptr, n: usize) -> usize {
    strcmp_bound(rt, s1, s2, Some(n))->Some_0
}

/// The exchanges of `strncmp` with the runtime.
pub open spec fn strncmp_events(m: Seq<u8>, rt: Runtime, s1: Ptr, s2: Ptr, n: usize) -> Seq<Event> {
    if n == 0 || rt.strict {
        seq![]
    } else if s1.null() || s2.null() {
        seq![rt.outcome_two(s1, s2, CheckStage::Null)]
    } else if rt.denies() {
        seq![
            ask_two(s1, s2, n, false),
            rt.outcome_two(s1, s2, CheckStage::Arena),
            report(Cost::Flat(6), true),
        ]
    } else {
        let limit = strncmp_limit(rt, s1, s2, n);
        let p = size_of(
            parting(c_bytes(m, s1.at(), Some(limit)), c_bytes(m, s2.at(), Some(limit)), false),
        );
        seq![ask_two(s1, s2, n, false)] + limit_note(n, limit) + seq![
            rt.outcome_two(s1, s2, CheckStage::Bounds),
            report(
                Cost::Scaled(
                    7,
                    if p == limit {
                        p
                    } else {
                        size_of(p + 1)
                    },
                ),
                limit < n,
            ),
        ]
    }
}

/// The order of the first `n` bytes of two strings; `0` for a null pointer and
/// for a denied call.
pub fn strncmp(mem: &Memory, s1: Ptr, s2: Ptr, n: usize, cx: &mut Membrane) -> (r: i32)
    requires
        n != 0 && !s1.null() && !s2.null() && old(cx).rt.serves() ==> readable(
            mem@,
            s1.at(),
            strcmp_bound(old(cx).rt, s1, s2, Some(n)),
        ) && readable(mem@, s2.at(), strcmp_bound(old(cx).rt, s1, s2, Some(n))),
    ensures
        r == if n == 0 || s1.null() || s2.null() || !old(cx).rt.serves() {
            0
        } else {
            order(
                c_bytes(mem@, s1.at(), strcmp_bound(old(cx).rt, s1, s2, Some(n))),
                c_bytes(mem@, s2.at(), strcmp_bound(old(cx).rt, s1, s2, Some(n))),
                false,
            )
        },
        final(cx).follows(*old(cx), strncmp_events(mem@, old(cx).rt, s1, s2, n)),
{
    if n == 0 {
        return 0;
    }
    if cx.rt.strict {
        if s1.is_null() || s2.is_null() {
            return 0;
        }
        let (_i, _hit, d) = walk(mem, s1.addr, s2.addr, Some(n), false);
        return d;
    }
    strncmp_validating(mem, s1, s2, n, cx)
}

fn strncmp_validating(mem: &Memory, s1: Ptr, s2: Ptr, n: usize, cx: &mut Membrane) -> (r: i32)
    requires
        n != 0,
        !old(cx).rt.strict,
        !s1.null() && !s2.null() && !old(cx).rt.denies() ==> readable(
            mem@,
            s1.at(),
            strcmp_bound(old(cx).rt, s1, s2, Some(n)),
        ) && readable(mem@, s2.at(), strcmp_bound(old(cx).rt, s1, s2, Some(n))),
    ensures
        r == if s1.null() || s2.null() || old(cx).rt.denies() {
            0
        } else {
            order(
                c_bytes(mem@, s1.at(), strcmp_bound(old(cx).rt, s1, s2, Some(n))),
                c_bytes(mem@, s2.at(), strcmp_bound(old(cx).rt, s1, s2, Some(n))),
                false,
            )
        },
        final(cx).follows(*old(cx), strncmp_events(mem@, old(cx).rt, s1, s2, n)),
{
    let size: usize = mem.size();
    if s1.is_null() || s2.is_null() {
        cx.outcome_two(s1, s2, CheckStage::Null);
        return 0;
    }
    if !cx.ask_two(s1, s2, n, false) {
        cx.outcome_two(s1, s2, CheckStage::Arena);
        cx.observe(Cost::Flat(6), true);
        return 0;
    }
    let bound: Option<usize> = smaller_bound(smaller_bound(cx.bound(s1), cx.bound(s2)), Some(n));
    let limit: usize = match bound {
        Some(b) => b,
        None => n,
    };
    let (i, hit, d) = walk(mem, s1.addr, s2.addr, Some(limit), false);
    let span: usize = if hit {
        i
    } else {
        i + 1
    };
    let cut: bool = limit < n;
    if cut {
        cx.record_truncation(n, limit);
    }
    cx.outcome_two(s1, s2, CheckStage::Bounds);
    cx.observe(Cost::Scaled(7, span), cut);
    d
}

/// The exchanges of `strcasecmp` with the runtime.
pub open spec fn strcasecmp_events(m: Seq<u8>, rt: Runtime, s1: Ptr, s2: Ptr) -> Seq<Event> {
    if rt.strict {
        seq![]
    } else if s1.null() || s2.null() {
        seq![rt.outcome_two(s1, s2, CheckStage::Null)]
    } else if rt.denies() {
        seq![
            ask_two(s1, s2, 0, false),
            rt.outcome_two(s1, s2, CheckStage::Arena),
            report(Cost::Flat(6), true),
        ]
    } else {
        let b1 = rt.bound(s1);
        let b2 = rt.bound(s2);
        let x = c_bytes(m, s1.at(), b1);
        let y = c_bytes(m, s2.at(), b2);
        let span = if b1 is None && b2 is None {
            parting(x, y, true) + 1
        } else if c_len(m, s1.at(), b1) < c_len(m, s2.at(), b2) {
            c_len(m, s2.at(), b2)
        } else {
            c_len(m, s1.at(), b1)
        };
        seq![
            ask_two(s1, s2, 0, false),
            rt.outcome_two(s1, s2, CheckStage::Bounds),
            report(Cost::Scaled(7, size_of(span)), b1 is Some || b2 is Some),
        ]
    }
}

/// The order of two strings without regard to ASCII case; `0` for a null pointer
/// and for a denied call.
///
/// A repairing call takes the end of each allocation for the end of its string.
pub fn strcasecmp(mem: &Memory, s1: Ptr, s2: Ptr, cx: &mut Membrane) -> (r: i32)
    requires
        !s1.null() && !s2.null() && old(cx).rt.serves() ==> readable(
            mem@,
            s1.at(),
            old(cx).rt.reach(s1),
        ) && readable(mem@, s2.at(), old(cx).rt.reach(s2)),
    ensures
        r == if s1.null() || s2.null() || !old(cx).rt.serves() {
            0
        } else {
            order(
                c_bytes(mem@, s1.at(), old(cx).rt.reach(s1)),
                c_bytes(mem@, s2.at(), old(cx).rt.reach(s2)),
                true,
            )
        },
        final(cx).follows(*old(cx), strcasecmp_events(mem@, old(cx).rt, s1, s2)),
{
    if cx.rt.strict {
        if s1.is_null() || s2.is_null() {
            return 0;
        }
        let (d, _span) = scan_strcasecmp(mem, s1.addr, s2.addr, None);
        return d;
    }
    strcasecmp_validating(mem, s1, s2, cx)
}

/// As [`strcasecmp`], whatever the locale.
pub fn __strcasecmp_l(mem: &Memory, s1: Ptr, s2: Ptr, _locale: usize, cx: &mut Membrane) -> (r: i32)
    requires
        !s1.null() && !s2.null() && old(cx).rt.serves() ==> readable(
            mem@,
            s1.at(),
            old(cx).rt.reach(s1),
        ) && readable(mem@, s2.at(), old(cx).rt.reach(s2)),
    ensures
        r == if s1.null() || s2.null() || !old(cx).rt.serves() {
            0
        } else {
            order(
                c_bytes(mem@, s1.at(), old(cx).rt.reach(s1)),
                c_bytes(mem@, s2.at(), old(cx).rt.reach(s2)),
                true,
            )
        },
        final(cx).follows(*old(cx), strcasecmp_events(mem@, old(cx).rt, s1, s2)),
{
    strcasecmp(mem, s1, s2, cx)
}

/// As [`strcasecmp`], whatever the locale.
pub fn strcasecmp_l(mem: &Memory, s1: Ptr, s2: Ptr, _locale: usize, cx: &mut Membrane) -> (r: i32)
    requires
        !s1.null() && !s2.null() && old(cx).rt.serves() ==> readable(
            mem@,
            s1.at(),
            old(cx).rt.reach(s1),
        ) && readable(mem@, s2.at(), old(cx).rt.reach(s2)),
    ensures
        r == if s1.null() || s2.null() || !old(cx).rt.serves() {
            0
        } else {
            order(
                c_bytes(mem@, s1.at(), old(cx).rt.reach(s1)),
                c_bytes(mem@, s2.at(), old(cx).rt.reach(s2)),
                true,
            )
        },
        final(cx).follows(*old(cx), strcasecmp_events(mem@, old(cx).rt, s1, s2)),
{
    strcasecmp(mem, s1, s2, cx)
}

/// As [`strcasecmp`].
pub fn __strcasecmp(mem: &Memory, s1: Ptr, s2: Ptr, cx: &mut Membrane) -> (r: i32)
    requires
        !s1.null() && !s2.null() && old(cx).rt.serves() ==> readable(
            mem@,
            s1.at(),
            old(cx).rt.reach(s1),
        ) && readable(mem@, s2.at(), old(cx).rt.reach(s2)),
    ensures
        r == if s1.null() || s2.null() || !old(cx).rt.serves() {
            0
        } else {
            order(
                c_bytes(mem@, s1.at(), old(cx).rt.reach(s1)),
                c_bytes(mem@, s2.at(), old(cx).rt.reach(s2)),
                true,
            )
        },
        final(cx).follows(*old(cx), strcasecmp_events(mem@, old(cx).rt, s1, s2)),
{
    strcasecmp(mem, s1, s2, cx)
}

fn strcasecmp_validating(mem: &Memory, s1: Ptr, s2: Ptr, cx: &mut Membrane) -> (r: i32)
    requires
        !old(cx).rt.strict,
        !s1.null() && !s2.null() && !old(cx).rt.denies() ==> readable(
            mem@,
            s1.at(),
            old(cx).rt.bound(s1),
        ) && readable(mem@, s2.at(), old(cx).rt.bound(s2)),
    ensures
        r == if s1.null() || s2.null() || old(cx).rt.denies() {
            0
        } else {
            order(
                c_bytes(mem@, s1.at(), old(cx).rt.bound(s1)),
                c_bytes(mem@, s2.at(), old(cx).rt.bound(s2)),
                true,
            )
        },
        final(cx).follows(*old(cx), strcasecmp_events(mem@, old(cx).rt, s1, s2)),
{
    let size: usize = mem.size();
    if s1.is_null() || s2.is_null() {
        cx.outcome_two(s1, s2, CheckStage::Null);
        return 0;
    }
    if !cx.ask_two(s1, s2, 0, false) {
        cx.outcome_two(s1, s2, CheckStage::Arena);
        cx.observe(Cost::Flat(6), true);
        return 0;
    }
    let b1: Option<usize> = cx.bound(s1);
    let b2: Option<usize> = cx.bound(s2);
    let bounded: bool = b1.is_some() || b2.is_some();
    let (d, span) = if !bounded {
        scan_strcasecmp(mem, s1.addr, s2.addr, None)
    } else {
        let (n1, _e1) = scan_c_string(mem, s1.addr, b1);
        let (n2, _e2) = scan_c_string(mem, s2.addr, b2);
        let d: i32 = walk_apart(mem, s1.addr, b1, s2.addr, b2, n1, n2);
        let longer: usize = if n1 < n2 {
            n2
        } else {
            n1
        };
        (d, longer)
    };
    proof {
        lemma_c_len(mem@, s1.at(), b1);
        lemma_c_len(mem@, s2.at(), b2);
    }
    cx.outcome_two(s1, s2, CheckStage::Bounds);
    cx.observe(Cost::Scaled(7, span), bounded);
    d
}

/// The exchanges of `strncasecmp` with the runtime.
pub open spec fn strncasecmp_events(rt: Runtime, s1: Ptr, s2: Ptr, n: usize) -> Seq<Event> {
    if n == 0 || rt.strict {
        seq![]
    } else if s1.null() || s2.null() {
        seq![rt.outcome_two(s1, s2, CheckStage::Null)]
    } else if rt.denies() {
        seq![
            ask_two(s1, s2, n, false),
            rt.outcome_two(s1, s2, CheckStage::Arena),
            report(Cost::Flat(6), true),
        ]
    } else {
        let limit = strncmp_limit(rt, s1, s2, n);
        seq![ask_two(s1, s2, n, false)] + limit_note(n, limit) + seq![
            rt.outcome_two(s1, s2, CheckStage::Bounds),
            report(Cost::Scaled(7, limit), limit < n),
        ]
    }
}

/// The order of the first `n` bytes of two strings without regard to ASCII case;
/// `0` for a null pointer and for a denied call.
pub fn strncasecmp(mem: &Memory, s1: Ptr, s2: Ptr, n: usize, cx: &mut Membrane) -> (r: i32)
    requires
        n != 0 && !s1.null() && !s2.null() && old(cx).rt.serves() ==> readable(
            mem@,
            s1.at(),
            strcmp_bound(old(cx).rt, s1, s2, Some(n)),
        ) && readable(mem@, s2.at(), strcmp_bound(old(cx).rt, s1, s2, Some(n))),
    ensures
        r == if n == 0 || s1.null() || s2.null() || !old(cx).rt.serves() {
            0
        } else {
            order(
                c_bytes(mem@, s1.at(), strcmp_bound(old(cx).rt, s1, s2, Some(n))),
                c_bytes(mem@, s2.at(), strcmp_bound(old(cx).rt, s1, s2, Some(n))),
                true,
            )
        },
        final(cx).follows(*old(cx), strncasecmp_events(old(cx).rt, s1, s2, n)),
{
    if n == 0 {
        return 0;
    }
    if cx.rt.strict {
        if s1.is_null() || s2.is_null() {
            return 0;
        }
        let (d, _span) = scan_strcasecmp(mem, s1.addr, s2.addr, Some(n));
        return d;
    }
    if s1.is_null() || s2.is_null() {
        cx.outcome_two(s1, s2, CheckStage::Null);
        return 0;
    }
    if !cx.ask_two(s1, s2, n, false) {
        cx.outcome_two(s1, s2, CheckStage::Arena);
        cx.observe(Cost::Flat(6), true);
        return 0;
    }
    let bound: Option<usize> = smaller_bound(smaller_bound(cx.bound(s1), cx.bound(s2)), Some(n));
    let limit: usize = match bound {
        Some(b) => b,
        None => n,
    };
    let (d, _span) = scan_strcasecmp(mem, s1.addr, s2.addr, Some(limit));
    let cut: bool = limit < n;
    if cut {
        cx.record_truncation(n, limit);
    }
    cx.outcome_two(s1, s2, CheckStage::Bounds);
    cx.observe(Cost::Scaled(7, limit), cut);
    d
}

/// As [`strncasecmp`], whatever the locale.
pub fn __strncasecmp_l(
    mem: &Memory,
    s1: Ptr,
    s2: Ptr,
    n: usize,
    _locale: usize,
    cx: &mut Membrane,
) -> (r: i32)
    requires
        n != 0 && !s1.null() && !s2.null() && old(cx).rt.serves() ==> readable(
            mem@,
            s1.at(),
            strcmp_bound(old(cx).rt, s1, s2, Some(n)),
        ) && readable(mem@, s2.at(), strcmp_bound(old(cx).rt, s1, s2, Some(n))),
    ensures
        r == if n == 0 || s1.null() || s2.null() || !old(cx).rt.serves() {
            0
        } else {
            order(
                c_bytes(mem@, s1.at(), strcmp_bound(old(cx).rt, s1, s2, Some(n))),
                c_bytes(mem@, s2.at(), strcmp_bound(old(cx).rt, s1, s2, Some(n))),
                true,
            )
        },
        final(cx).follows(*old(cx), strncasecmp_events(old(cx).rt, s1, s2, n)),
{
    strncasecmp(mem, s1, s2, n, cx)
}

/// As [`strncasecmp`], whatever the locale.
pub fn strncasecmp_l(
    mem: &Memory,
    s1: Ptr,
    s2: Ptr,
    n: usize,
    _locale: usize,
    cx: &mut Membrane,
) -> (r: i32)
    requires
        n != 0 && !s1.null() && !s2.null() && old(cx).rt.serves() ==> readable(
            mem@,
            s1.at(),
            strcmp_bound(old(cx).rt, s1, s2, Some(n)),
        ) && readable(mem@, s2.at(), strcmp_bound(old(cx).rt, s1, s2, Some(n))),
    ensures
        r == if n == 0 || s1.null() || s2.null() || !old(cx).rt.serves() {
            0
        } else {
            order(
                c_bytes(mem@, s1.at(), strcmp_bound(old(cx).rt, s1, s2, Some(n))),
                c_bytes(mem@, s2.at(), strcmp_bound(old(cx).rt, s1, s2, Some(n))),
                true,
            )
        },
        final(cx).follows(*old(cx), strncasecmp_events(old(cx).rt, s1, s2, n)),
{
    strncasecmp(mem, s1, s2, n, cx)
}

/// Looking at every byte finds a difference exactly where the order of the blocks
/// is not zero.
pub proof fn law_differing_blocks_are_ordered(m: Seq<u8>, s1: usize, s2: usize, n: usize)
    requires
        s1 != 0,
        s2 != 0,
    ensures
        differ(m, s1, s2, n) == 0 <==> block_order(block(m, at(s1), at(n)), block(m, at(s2), at(n)))
            == 0,
{
    law_block_order_is_zero_on_equals(
        block(m, at(s1), at(n)),
        block(m, at(s2), at(n)),
    );
}

/// Blocks differ exactly where some byte does; nothing differs from itself, and a
/// null pointer only from another pointer.
pub proof fn law_blocks_differ_where_a_byte_does(m: Seq<u8>, s1: usize, s2: usize, n: usize)
    ensures
        differ(m, s1, s2, n) == 0 || differ(m, s1, s2, n) == 1,
        s1 != 0 && s2 != 0 ==> (differ(m, s1, s2, n) == 1 <==> exists|i: int|
            0 <= i < n && m[s1 + i] != #[trigger] m[s2 + i]),
        s1 == 0 && s2 != 0 && n > 0 ==> differ(m, s1, s2, n) == 1 && differ(m, s2, s1, n) == 1,
        differ(m, s1, s1, n) == 0,
        n == 0 ==> differ(m, s1, s2, n) == 0,
{
    let x = block(m, at(s1), at(n));
    let y = block(m, at(s2), at(n));
    if s1 != 0 && s2 != 0 {
        if exists|i: int| 0 <= i < n && m[s1 + i] != #[trigger] m[s2 + i] {
            let i = choose|i: int| 0 <= i < n && m[s1 + i] != #[trigger] m[s2 + i];
            assert(x[i] != y[i]);
        } else {
            assert forall|i: int| 0 <= i < n implies x[i] == y[i] by {
                assert(!(m[s1 + i] != m[s2 + i]));
            }
            assert(x =~= y);
        }
    }
}

/// Strings are compared up to the smallest of the bounds that hold: the
/// allocations in a repaired call, and the number of bytes where one is given.
pub proof fn law_compared_bytes(rt: Runtime, s1: Ptr, s2: Ptr, n: usize, k: usize)
    ensures
        k <= strncmp_limit(rt, s1, s2, n) <==> k <= n && (!rt.strict && (rt.heals
            || rt.action is Repair) ==> (s1.remaining is Some ==> k <= s1.remaining->Some_0) && (
        s2.remaining is Some ==> k <= s2.remaining->Some_0)),
        (strcmp_bound(rt, s1, s2, None) is Some ==> k <= strcmp_bound(rt, s1, s2, None)->Some_0)
            <==> (!rt.strict && (rt.heals || rt.action is Repair) ==> (s1.remaining is Some ==> k
            <= s1.remaining->Some_0) && (s2.remaining is Some ==> k <= s2.remaining->Some_0)),
{
}

/// Blocks are compared in full, except in a repaired call for which the healing
/// policy clamps the size.
pub proof fn law_compared_block_size(rt: Runtime, n: usize)
    ensures
        rt.strict || rt.raw() || !(rt.heals || rt.action is Repair) || !(rt.clamp is ClampSize)
            ==> memcmp_len(rt, n) == n,
        !rt.strict && !rt.raw() ==> memcmp_len(rt, n) == rt.clamped(n),
        !memcmp_serves(rt) <==> !rt.strict && !rt.raw() && rt.action is Deny,
{
}

/// A comparison that is strict leaves no trace. Another one of strings that are
/// there asks the policy once, to read at the first; it is adverse where it is
/// denied, and where it is not, exactly where a repair is recorded.
pub proof fn law_trace_of_a_comparison(m: Seq<u8>, rt: Runtime, s1: Ptr, s2: Ptr, n: usize)
    requires
        s1.addr != 0,
        s2.addr != 0,
    ensures
        ({
            let untracked = s1.remaining is None && s2.remaining is None;
            let all = strcmp_events(m, rt, s1, s2);
            let some = strncmp_events(m, rt, s1, s2, n);
            let folded = strncasecmp_events(rt, s1, s2, n);
            let cut = strncmp_limit(rt, s1, s2, n) < n;
            let q = Query { addr: s1.addr, len: n, write: false, untracked };
            &&& rt.strict ==> all.len() == 0 && some.len() == 0 && folded.len() == 0
            &&& n == 0 ==> some.len() == 0 && folded.len() == 0
            &&& !rt.strict ==> asks(all, Query { addr: s1.addr, len: 0, write: false, untracked })
            &&& !rt.strict && n > 0 ==> asks(some, q) && asks(folded, q)
            &&& !rt.strict && rt.action is Deny ==> verdict(all) == Some(true) && !healed(all)
            &&& !rt.strict && !(rt.action is Deny) ==> verdict(all) == Some(healed(all))
            &&& !rt.strict && n > 0 && rt.action is Deny ==> verdict(some) == Some(true) && verdict(
                folded,
            ) == Some(true)
            &&& !rt.strict && n > 0 && !(rt.action is Deny) ==> verdict(some) == Some(cut)
                && verdict(folded) == Some(cut) && healed(some) == cut && healed(folded) == cut
        }),
{
}

/// A comparison of blocks that is strict or passes around the membrane leaves no
/// trace. Another one of blocks that are there asks the policy once, to read `n`
/// bytes; it is adverse where it is denied or fewer bytes are compared.
pub proof fn law_trace_of_a_block_comparison(rt: Runtime, s1: Ptr, s2: Ptr, n: usize)
    requires
        s1.addr != 0,
        s2.addr != 0,
        n > 0,
    ensures
        ({
            let ev = memcmp_events(rt, s1, s2, n);
            let q = Query {
                addr: s1.addr,
                len: n,
                write: false,
                untracked: s1.remaining is None && s2.remaining is None,
            };
            &&& rt.strict || rt.raw() ==> ev.len() == 0
            &&& !rt.strict && !rt.raw() ==> asks(ev, q)
            &&& !rt.strict && !rt.raw() && rt.action is Deny ==> verdict(ev) == Some(true)
            &&& !rt.strict && !rt.raw() && !(rt.action is Deny) ==> verdict(ev) == Some(
                memcmp_len(rt, n) == 0 || memcmp_len(rt, n) < n,
            )
        }),
{
}

} // verus!
