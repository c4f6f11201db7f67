//! Spans of strings inside and outside byte sets.
use vstd::prelude::*;
use crate::membrane::{
    ask_one,
    ask_two,
    asks,
    exit_of,
    report,
    stage_place,
    verdict,
    CheckStage,
    Cost,
    Event,
    Membrane,
    Query,
    Runtime,
};
use crate::memory::{Memory, Ptr};
use crate::scan::{
    c_bytes,
    c_len,
    extent,
    find,
    is_first,
    is_stop,
    lemma_c_len,
    lemma_find,
    lemma_find_is,
    readable,
    region,
    scan_c_string,
};
use crate::search::{low_byte, to_low_byte};
use crate::span::{lemma_stop_of, set_of, span_core, span_stop};
use crate::tokens::lemma_region_stop;

verus! {

/// The first stop of the string at `s` over the set at `set`, each under the
/// bound that the runtime gives it.
pub open spec fn set_stop(m: Seq<u8>, rt: Runtime, s: Ptr, set: Ptr, stop_in_set: bool) -> int {
    find(
        m,
        s.at(),
        region(m, s.at(), rt.reach(s)),
        is_stop(c_bytes(m, set.at(), rt.reach(set)), stop_in_set),
    )
}

/// The stop is a byte of the string, and not its end.
pub open spec fn stops_inside(
    m: Seq<u8>,
    rt: Runtime,
    s: Ptr,
    set: Ptr,
    stop_in_set: bool,
) -> bool {
    let i = set_stop(m, rt, s, set, stop_in_set);
    i < region(m, s.at(), rt.reach(s)) && m[s.at() + i] != 0
}

/// The exchanges of a span function with the runtime.
pub open spec fn span_events(m: Seq<u8>, rt: Runtime, s: Ptr, set: Ptr) -> Seq<Event> {
    if s.null() || set.null() {
        seq![rt.outcome_two(s, set, CheckStage::Null)]
    } else if rt.strict {
        seq![]
    } else if rt.denies() {
        seq![
            ask_two(s, set, 0, false),
            rt.outcome_two(s, set, CheckStage::Arena),
            report(Cost::Flat(6), true),
        ]
    } else {
        seq![
            ask_two(s, set, 0, false),
            rt.outcome_two(s, set, CheckStage::Bounds),
            report(Cost::Scaled(7, c_len(m, s.at(), rt.bound(s)) as usize), rt.bound(s) is Some),
        ]
    }
}

/// The first stop, and whether it is a byte of the string; `None` for a null
/// pointer and for a denied call.
fn span(mem: &Memory, s: Ptr, set: Ptr, stop_in_set: bool, cx: &mut Membrane) -> (r: Option<(
    usize,
    bool,
)>)
    requires
        !s.null() && !set.null() && old(cx).rt.serves() ==> readable(
            mem@,
            s.at(),
            old(cx).rt.reach(s),
        ) && readable(mem@, set.at(), old(cx).rt.reach(set)),
    ensures
        r is None == (s.null() || set.null() || !old(cx).rt.serves()),
        r matches Some((i, inside)) ==> i == set_stop(mem@, old(cx).rt, s, set, stop_in_set)
            && inside == stops_inside(mem@, old(cx).rt, s, set, stop_in_set) && s.addr + i
            <= mem@.len(),
        final(cx).follows(*old(cx), span_events(mem@, old(cx).rt, s, set)),
{
    let size: usize = mem.size();
    let ghost m = mem@;
    if s.is_null() || set.is_null() {
        cx.outcome_two(s, set, CheckStage::Null);
        return None;
    }
    if cx.rt.strict {
        proof {
            lemma_c_len(m, s.at(), None);
            lemma_c_len(m, set.at(), None);
            lemma_stop_of(m, s.addr, set_of(m, set.addr), stop_in_set);
            lemma_region_stop(m, s.addr, 0, set_of(m, set.addr), stop_in_set);
        }
        let (set_len, _ended) = scan_c_string(mem, set.addr, None);
        let i: usize = span_stop(mem, s.addr, set.addr, set_len, stop_in_set);
        let inside: bool = mem.load(s.addr + i) != 0;
        return Some((i, inside));
    }
    if !cx.ask_two(s, set, 0, false) {
        cx.outcome_two(s, set, CheckStage::Arena);
        cx.observe(Cost::Flat(6), true);
        return None;
    }
    let s_bound: Option<usize> = cx.bound(s);
    let set_bound: Option<usize> = cx.bound(set);
    proof {
        lemma_c_len(m, s.at(), s_bound);
        lemma_c_len(m, set.at(), set_bound);
    }
    let (s_len, s_ended) = scan_c_string(mem, s.addr, s_bound);
    let (set_len, _set_ended) = scan_c_string(mem, set.addr, set_bound);
    let n: usize = if s_ended {
        s_len + 1
    } else {
        s_len
    };
    let i: usize = span_core(mem, s.addr, n, set.addr, set_len, stop_in_set);
    let inside: bool = i < n && mem.load(s.addr + i) != 0;
    cx.outcome_two(s, set, CheckStage::Bounds);
    cx.observe(Cost::Scaled(7, s_len), s_bound.is_some());
    Some((i, inside))
}

/// How many bytes at the start of the string at `s` are all in the set `accept`;
/// `0` for a null pointer and for a denied call.
pub fn strspn(mem: &Memory, s: Ptr, accept: Ptr, cx: &mut Membrane) -> (r: usize)
    requires
        !s.null() && !accept.null() && old(cx).rt.serves() ==> readable(
            mem@,
            s.at(),
            old(cx).rt.reach(s),
        ) && readable(mem@, accept.at(), old(cx).rt.reach(accept)),
    ensures
        r == if s.null() || accept.null() || !old(cx).rt.serves() {
            0
        } else {
            set_stop(mem@, old(cx).rt, s, accept, false)
        },
        final(cx).follows(*old(cx), span_events(mem@, old(cx).rt, s, accept)),
{
    match span(mem, s, accept, false, cx) {
        Some((i, _inside)) => i,
        None => 0,
    }
}

/// How many bytes at the start of the string at `s` are all outside the set
/// `reject`; `0` for a null pointer and for a denied call.
pub fn strcspn(mem: &Memory, s: Ptr, reject: Ptr, cx: &mut Membrane) -> (r: usize)
    requires
        !s.null() && !reject.null() && old(cx).rt.serves() ==> readable(
            mem@,
            s.at(),
            old(cx).rt.reach(s),
        ) && readable(mem@, reject.at(), old(cx).rt.reach(reject)),
    ensures
        r == if s.null() || reject.null() || !old(cx).rt.serves() {
            0
        } else {
            set_stop(mem@, old(cx).rt, s, reject, true)
        },
        final(cx).follows(*old(cx), span_events(mem@, old(cx).rt, s, reject)),
{
    match span(mem, s, reject, true, cx) {
        Some((i, _inside)) => i,
        None => 0,
    }
}

/// The address of the first byte of the string at `s` that is in the set
/// `accept`; null where there is none, for a null pointer and for a denied call.
pub fn strpbrk(mem: &Memory, s: Ptr, accept: Ptr, cx: &mut Membrane) -> (r: usize)
    requires
        !s.null() && !accept.null() && old(cx).rt.serves() ==> readable(
            mem@,
            s.at(),
            old(cx).rt.reach(s),
        ) && readable(mem@, accept.at(), old(cx).rt.reach(accept)),
    ensures
        r == if s.null() || accept.null() || !old(cx).rt.serves() || !stops_inside(
            mem@,
            old(cx).rt,
            s,
            accept,
            true,
        ) {
            0
        } else {
            s.addr + set_stop(mem@, old(cx).rt, s, accept, true)
        },
        final(cx).follows(*old(cx), span_events(mem@, old(cx).rt, s, accept)),
{
    let size: usize = mem.size();
    match span(mem, s, accept, true, cx) {
        Some((i, inside)) => if inside {
            s.addr + i
        } else {
            0
        },
        None => 0,
    }
}

/// What a scan over a fixed set looks for.
#[derive(Clone, Copy, Debug, PartialEq, Eq, Structural)]
pub enum ConstSetScanMode {
    /// The end of the bytes that are in the set.
    SpanAccepted,
    /// The end of the bytes that are not in the set.
    SpanRejected,
    /// A byte that is in the set.
    FindMember,
}

/// The set that arguments stand for: their low bytes up to the first zero.
pub open spec fn const_set(args: Seq<i32>) -> Seq<u8>
    decreases args.len(),
{
    if args.len() == 0 || low_byte(args[0]) == 0 {
        seq![]
    } else {
        seq![low_byte(args[0])] + const_set(args.drop_first())
    }
}

/// The set that arguments stand for: their low bytes up to the first zero.
pub fn const_set_from_args(args: &[i32]) -> (r: Vec<u8>)
    ensures
        r@ == const_set(args@),
{
    let mut set: Vec<u8> = Vec::new();
    let mut i: usize = 0;
    proof {
        assert(args@.skip(0) =~= args@);
        assert(set@ + const_set(args@) =~= const_set(args@));
    }
    while i < args.len()
        invariant_except_break
            const_set(args@) == set@ + const_set(args@.skip(i as int)),
        invariant
            i <= args@.len(),
        ensures
            set@ == const_set(args@),
        decreases args@.len() - i,
    {
        let byte: u8 = to_low_byte(args[i]);
        let ghost rest = args@.skip(i as int);
        assert(rest[0] == args@[i as int]);
        assert(rest.drop_first() =~= args@.skip(i + 1));
        if byte == 0 {
            assert(set@ + const_set(rest) =~= set@);
            break;
        }
        let ghost before = set@;
        set.push(byte);
        i += 1;
        assert(before + const_set(rest) =~= set@ + const_set(args@.skip(i as int)));
        assert(i == args@.len() ==> set@ + const_set(args@.skip(i as int)) =~= set@);
    }
    set
}

/// Whether `byte` is in the set.
pub fn const_set_contains(set: &[u8], byte: u8) -> (r: bool)
    ensures
        r == set@.contains(byte),
{
    let mut i: usize = 0;
    while i < set.len()
        invariant
            i <= set@.len(),
            forall|j: int| 0 <= j < i ==> #[trigger] set@[j] != byte,
        decreases set@.len() - i,
    {
        if set[i] == byte {
            assert(set@[i as int] == byte);
            return true;
        }
        i += 1;
    }
    false
}

/// Where a scan over a fixed set stops.
pub open spec fn const_set_stop(
    m: Seq<u8>,
    s: int,
    set: Seq<u8>,
    mode: ConstSetScanMode,
    bound: Option<usize>,
) -> int {
    find(m, s, extent(m, s, bound), is_stop(set, !(mode is SpanAccepted)))
}

/// Scans the string at `s` over a fixed set: the offset at which the scan stops,
/// and whether a byte of the set that it looked for stands there.
pub fn scan_const_set(
    mem: &Memory,
    s: usize,
    set: &[u8],
    mode: ConstSetScanMode,
    bound: Option<usize>,
) -> (r: (usize, bool))
    requires
        readable(mem@, s as int, bound),
    ensures
        r.0 == const_set_stop(mem@, s as int, set@, mode, bound),
        r.1 == (!(mode is SpanAccepted) && r.0 < extent(mem@, s as int, bound) && mem@[s + r.0]
            != 0),
        s + r.0 <= mem@.len(),
{
    let size: usize = mem.size();
    let ghost m = mem@;
    let stop_in_set: bool = !matches!(mode, ConstSetScanMode::SpanAccepted);
    let ghost p = is_stop(set@, stop_in_set);
    let limit: usize = match bound {
        Some(b) => if b < size - s {
            b
        } else {
            size - s
        },
        None => size - s,
    };
    let mut i: usize = 0;
    while i < limit
        invariant
            m == mem@,
            size == m.len(),
            s + limit <= size,
            i <= limit,
            limit == extent(m, s as int, bound),
            stop_in_set == !(mode is SpanAccepted),
            p == is_stop(set@, stop_in_set),
            forall|j: int| s <= j < s + i ==> !p(#[trigger] m[j]),
        decreases limit - i,
    {
        let byte: u8 = mem.load(s + i);
        if byte == 0 || const_set_contains(set, byte) == stop_in_set {
            proof {
                assert(is_first(m, s as int, limit as int, p, i as int));
                lemma_find_is(m, s as int, limit as int, p, i as int);
            }
            return (i, stop_in_set && byte != 0);
        }
        i += 1;
    }
    proof {
        assert(is_first(m, s as int, limit as int, p, i as int));
        lemma_find_is(m, s as int, limit as int, p, i as int);
    }
    (limit, false)
}

/// The exchanges of a scan over a fixed set with the runtime.
pub open spec fn const_set_events(rt: Runtime, s: Ptr, stop: usize) -> Seq<Event> {
    if rt.denies() {
        seq![
            ask_one(s, 0, false),
            rt.outcome_one(s, CheckStage::Arena),
            report(Cost::Flat(6), true),
        ]
    } else {
        seq![
            ask_one(s, 0, false),
            rt.outcome_one(s, CheckStage::Bounds),
            report(Cost::Scaled(7, stop), rt.repairs() && s.remaining is Some),
        ]
    }
}

/// What `const_set_span` does with the runtime.
pub open spec fn const_span_events(
    m: Seq<u8>,
    rt: Runtime,
    s: Ptr,
    set: Seq<u8>,
    mode: ConstSetScanMode,
) -> Seq<Event> {
    if s.null() {
        seq![rt.outcome_one(s, CheckStage::Null)]
    } else if mode is SpanAccepted && set.len() == 0 {
        seq![]
    } else {
        const_set_events(rt, s, const_set_stop(m, s.at(), set, mode, s.remaining) as usize)
    }
}

/// The length of the span at the start of the string at `s` over a fixed set.
pub open spec fn const_span(
    m: Seq<u8>,
    rt: Runtime,
    s: Ptr,
    set: Seq<u8>,
    mode: ConstSetScanMode,
) -> int {
    if s.null() || (mode is SpanAccepted && set.len() == 0) || rt.denies() {
        0
    } else {
        const_set_stop(m, s.at(), set, mode, s.remaining)
    }
}

/// The length of the span at the start of the string at `s` over a fixed set,
/// which a tracked allocation ends; `0` for a null pointer and for a denied call.
pub fn const_set_span(
    mem: &Memory,
    s: Ptr,
    set: &[u8],
    mode: ConstSetScanMode,
    cx: &mut Membrane,
) -> (r: usize)
    requires
        !s.null() && !old(cx).rt.denies() ==> readable(mem@, s.at(), s.remaining),
    ensures
        r == const_span(mem@, old(cx).rt, s, set@, mode),
        final(cx).follows(*old(cx), const_span_events(mem@, old(cx).rt, s, set@, mode)),
{
    if s.is_null() {
        cx.outcome_one(s, CheckStage::Null);
        return 0;
    }
    if matches!(mode, ConstSetScanMode::SpanAccepted) && set.len() == 0 {
        return 0;
    }
    if !cx.ask_one(s, 0, false) {
        cx.outcome_one(s, CheckStage::Arena);
        cx.observe(Cost::Flat(6), true);
        return 0;
    }
    let repair: bool = cx.repairs();
    let (stop, _found) = scan_const_set(mem, s.addr, set, mode, s.remaining);
    cx.outcome_one(s, CheckStage::Bounds);
    cx.observe(Cost::Scaled(7, stop), repair && s.remaining.is_some());
    stop
}

/// What `const_set_pbrk` does with the runtime.
pub open spec fn const_pbrk_events(m: Seq<u8>, rt: Runtime, s: Ptr, set: Seq<u8>) -> Seq<Event> {
    if s.null() || set.len() == 0 {
        seq![rt.outcome_one(s, CheckStage::Null)]
    } else {
        const_set_events(
            rt,
            s,
            const_set_stop(
                m,
                s.at(),
                set,
                ConstSetScanMode::FindMember,
                s.remaining,
            ) as usize,
        )
    }
}

/// The address of the first byte of the string at `s` that is in a fixed set.
pub open spec fn const_pbrk(m: Seq<u8>, rt: Runtime, s: Ptr, set: Seq<u8>) -> int {
    let i = const_set_stop(m, s.at(), set, ConstSetScanMode::FindMember, s.remaining);
    if s.null() || set.len() == 0 || rt.denies() || i >= extent(m, s.at(), s.remaining) || m[s.at()
        + i] == 0 {
        0
    } else {
        s.addr + i
    }
}

/// The address of the first byte of the string at `s` that is in a fixed set;
/// null where there is none, for a null pointer, an empty set and a denied call.
pub fn const_set_pbrk(mem: &Memory, s: Ptr, set: &[u8], cx: &mut Membrane) -> (r: usize)
    requires
        !s.null() && !old(cx).rt.denies() ==> readable(mem@, s.at(), s.remaining),
    ensures
        r == const_pbrk(mem@, old(cx).rt, s, set@),
        final(cx).follows(*old(cx), const_pbrk_events(mem@, old(cx).rt, s, set@)),
{
    let size: usize = mem.size();
    if s.is_null() || set.len() == 0 {
        cx.outcome_one(s, CheckStage::Null);
        return 0;
    }
    if !cx.ask_one(s, 0, false) {
        cx.outcome_one(s, CheckStage::Arena);
        cx.observe(Cost::Flat(6), true);
        return 0;
    }
    let repair: bool = cx.repairs();
    let (i, found) = scan_const_set(
        mem,
        s.addr,
        set,
        ConstSetScanMode::FindMember,
        s.remaining,
    );
    cx.outcome_one(s, CheckStage::Bounds);
    cx.observe(Cost::Scaled(7, i), repair && s.remaining.is_some());
    if found {
        s.addr + i
    } else {
        0
    }
}

/// As [`const_set_pbrk`] over a set of up to two bytes.
pub fn __strpbrk_c2(mem: &Memory, s: Ptr, a1: i32, a2: i32, cx: &mut Membrane) -> (r: usize)
    requires
        !s.null() && !old(cx).rt.denies() ==> readable(mem@, s.at(), s.remaining),
    ensures
        r == const_pbrk(mem@, old(cx).rt, s, const_set(seq![a1, a2])),
        final(cx).follows(
            *old(cx),
            const_pbrk_events(mem@, old(cx).rt, s, const_set(seq![a1, a2])),
        ),
{
    let args: [i32; 2] = [a1, a2];
    assert(args@ =~= seq![a1, a2]);
    let set: Vec<u8> = const_set_from_args(&args);
    const_set_pbrk(mem, s, set.as_slice(), cx)
}

/// As [`const_set_pbrk`] over a set of up to three bytes.
pub fn __strpbrk_c3(
    mem: &Memory,
    s: Ptr,
    a1: i32,
    a2: i32,
    a3: i32,
    cx: &mut Membrane,
) -> (r: usize)
    requires
        !s.null() && !old(cx).rt.denies() ==> readable(mem@, s.at(), s.remaining),
    ensures
        r == const_pbrk(mem@, old(cx).rt, s, const_set(seq![a1, a2, a3])),
        final(cx).follows(
            *old(cx),
            const_pbrk_events(mem@, old(cx).rt, s, const_set(seq![a1, a2, a3])),
        ),
{
    let args: [i32; 3] = [a1, a2, a3];
    assert(args@ =~= seq![a1, a2, a3]);
    let set: Vec<u8> = const_set_from_args(&args);
    const_set_pbrk(mem, s, set.as_slice(), cx)
}

/// The span outside a set of up to one byte; see [`const_set_span`].
pub fn __strcspn_c1(mem: &Memory, s: Ptr, a1: i32, cx: &mut Membrane) -> (r: usize)
    requires
        !s.null() && !old(cx).rt.denies() ==> readable(mem@, s.at(), s.remaining),
    ensures
        r == const_span(
            mem@,
            old(cx).rt,
            s,
            const_set(seq![a1]),
            ConstSetScanMode::SpanRejected,
        ),
        final(cx).follows(
            *old(cx),
            const_span_events(
                mem@,
                old(cx).rt,
                s,
                const_set(seq![a1]),
                ConstSetScanMode::SpanRejected,
            ),
        ),
{
    let args: [i32; 1] = [a1];
    assert(args@ =~= seq![a1]);
    let set: Vec<u8> = const_set_from_args(&args);
    const_set_span(mem, s, set.as_slice(), ConstSetScanMode::SpanRejected, cx)
}

/// The span outside a set of up to two bytes; see [`const_set_span`].
pub fn __strcspn_c2(mem: &Memory, s: Ptr, a1: i32, a2: i32, cx: &mut Membrane) -> (r: usize)
    requires
        !s.null() && !old(cx).rt.denies() ==> readable(mem@, s.at(), s.remaining),
    ensures
        r == const_span(
            mem@,
            old(cx).rt,
            s,
            const_set(seq![a1, a2]),
            ConstSetScanMode::SpanRejected,
        ),
        final(cx).follows(
            *old(cx),
            const_span_events(
                mem@,
                old(cx).rt,
                s,
                const_set(seq![a1, a2]),
                ConstSetScanMode::SpanRejected,
            ),
        ),
{
    let args: [i32; 2] = [a1, a2];
    assert(args@ =~= seq![a1, a2]);
    let set: Vec<u8> = const_set_from_args(&args);
    const_set_span(mem, s, set.as_slice(), ConstSetScanMode::SpanRejected, cx)
}

/// The span outside a set of up to three bytes; see [`const_set_span`].
pub fn __strcspn_c3(
    mem: &Memory,
    s: Ptr,
    a1: i32,
    a2: i32,
    a3: i32,
    cx: &mut Membrane,
) -> (r: usize)
    requires
        !s.null() && !old(cx).rt.denies() ==> readable(mem@, s.at(), s.remaining),
    ensures
        r == const_span(
            mem@,
            old(cx).rt,
            s,
            const_set(seq![a1, a2, a3]),
            ConstSetScanMode::SpanRejected,
        ),
        final(cx).follows(
            *old(cx),
            const_span_events(
                mem@,
                old(cx).rt,
                s,
                const_set(seq![a1, a2, a3]),
                ConstSetScanMode::SpanRejected,
            ),
        ),
{
    let args: [i32; 3] = [a1, a2, a3];
    assert(args@ =~= seq![a1, a2, a3]);
    let set: Vec<u8> = const_set_from_args(&args);
    const_set_span(mem, s, set.as_slice(), ConstSetScanMode::SpanRejected, cx)
}

/// The span inside a set of up to one byte; see [`const_set_span`].
pub fn __strspn_c1(mem: &Memory, s: Ptr, a1: i32, cx: &mut Membrane) -> (r: usize)
    requires
        !s.null() && !old(cx).rt.denies() ==> readable(mem@, s.at(), s.remaining),
    ensures
        r == const_span(
            mem@,
            old(cx).rt,
            s,
            const_set(seq![a1]),
            ConstSetScanMode::SpanAccepted,
        ),
        final(cx).follows(
            *old(cx),
            const_span_events(
                mem@,
                old(cx).rt,
                s,
                const_set(seq![a1]),
                ConstSetScanMode::SpanAccepted,
            ),
        ),
{
    let args: [i32; 1] = [a1];
    assert(args@ =~= seq![a1]);
    let set: Vec<u8> = const_set_from_args(&args);
    const_set_span(mem, s, set.as_slice(), ConstSetScanMode::SpanAccepted, cx)
}

/// The span inside a set of up to two bytes; see [`const_set_span`].
pub fn __strspn_c2(mem: &Memory, s: Ptr, a1: i32, a2: i32, cx: &mut Membrane) -> (r: usize)
    requires
        !s.null() && !old(cx).rt.denies() ==> readable(mem@, s.at(), s.remaining),
    ensures
        r == const_span(
            mem@,
            old(cx).rt,
            s,
            const_set(seq![a1, a2]),
            ConstSetScanMode::SpanAccepted,
        ),
        final(cx).follows(
            *old(cx),
            const_span_events(
                mem@,
                old(cx).rt,
                s,
                const_set(seq![a1, a2]),
                ConstSetScanMode::SpanAccepted,
            ),
        ),
{
    let args: [i32; 2] = [a1, a2];
    assert(args@ =~= seq![a1, a2]);
    let set: Vec<u8> = const_set_from_args(&args);
    const_set_span(mem, s, set.as_slice(), ConstSetScanMode::SpanAccepted, cx)
}

/// The span inside a set of up to three bytes; see [`const_set_span`].
pub fn __strspn_c3(mem: &Memory, s: Ptr, a1: i32, a2: i32, a3: i32, cx: &mut Membrane) -> (r: usize)
    requires
        !s.null() && !old(cx).rt.denies() ==> readable(mem@, s.at(), s.remaining),
    ensures
        r == const_span(
            mem@,
            old(cx).rt,
            s,
            const_set(seq![a1, a2, a3]),
            ConstSetScanMode::SpanAccepted,
        ),
        final(cx).follows(
            *old(cx),
            const_span_events(
                mem@,
                old(cx).rt,
                s,
                const_set(seq![a1, a2, a3]),
                ConstSetScanMode::SpanAccepted,
            ),
        ),
{
    let args: [i32; 3] = [a1, a2, a3];
    assert(args@ =~= seq![a1, a2, a3]);
    let set: Vec<u8> = const_set_from_args(&args);
    const_set_span(mem, s, set.as_slice(), ConstSetScanMode::SpanAccepted, cx)
}

/// A span over a set and the span over its complement meet: where the first one
/// is not empty, the other one is, unless the string is empty.
pub proof fn law_spans_are_complementary(m: Seq<u8>, rt: Runtime, s: Ptr, set: Ptr)
    requires
        readable(m, s.at(), rt.reach(s)),
        c_len(m, s.at(), rt.reach(s)) > 0,
    ensures
        set_stop(m, rt, s, set, false) == 0 <==> set_stop(m, rt, s, set, true) > 0,
{
    let n = region(m, s.at(), rt.reach(s));
    let d = c_bytes(m, set.at(), rt.reach(set));
    lemma_c_len(m, s.at(), rt.reach(s));
    lemma_find(m, s.at(), n, is_stop(d, false));
    lemma_find(m, s.at(), n, is_stop(d, true));
    assert(m[s.at()] != 0);
}

/// `strpbrk` finds a byte exactly where `strcspn` stops before the end.
pub proof fn law_strpbrk_is_where_strcspn_stops(m: Seq<u8>, rt: Runtime, s: Ptr, set: Ptr)
    requires
        readable(m, s.at(), rt.reach(s)),
    ensures
        stops_inside(m, rt, s, set, true) <==> set_stop(m, rt, s, set, true) < c_len(
            m,
            s.at(),
            rt.reach(s),
        ),
        stops_inside(m, rt, s, set, true) ==> c_bytes(m, set.at(), rt.reach(set)).contains(
            m[s.at() + set_stop(m, rt, s, set, true)],
        ),
{
    let n = region(m, s.at(), rt.reach(s));
    let d = c_bytes(m, set.at(), rt.reach(set));
    lemma_c_len(m, s.at(), rt.reach(s));
    lemma_find(m, s.at(), n, is_stop(d, true));
    let i = set_stop(m, rt, s, set, true);
    let p = is_stop(d, true);
    if i < n {
        assert(p(m[s.at() + i]));
    }
}

/// A span over a set is the longest front of the string whose bytes all lie in
/// the set, or all outside of it.
pub proof fn law_span_is_the_longest_front(
    m: Seq<u8>,
    rt: Runtime,
    s: Ptr,
    set: Ptr,
    stop_in_set: bool,
)
    requires
        readable(m, s.at(), rt.reach(s)),
    ensures
        ({
            let x = c_bytes(m, s.at(), rt.reach(s));
            let members = c_bytes(m, set.at(), rt.reach(set));
            let i = set_stop(m, rt, s, set, stop_in_set);
            &&& 0 <= i <= x.len()
            &&& forall|j: int| 0 <= j < i ==> members.contains(#[trigger] x[j]) == !stop_in_set
            &&& i < x.len() ==> members.contains(x[i]) == stop_in_set
            &&& stops_inside(m, rt, s, set, stop_in_set) <==> i < x.len()
        }),
{
    let b = rt.reach(s);
    let x = c_bytes(m, s.at(), b);
    let members = c_bytes(m, set.at(), rt.reach(set));
    let p = is_stop(members, stop_in_set);
    let n = region(m, s.at(), b);
    let i = set_stop(m, rt, s, set, stop_in_set);
    lemma_c_len(m, s.at(), b);
    lemma_find(m, s.at(), n, p);
    if i > x.len() {
        assert(!p(m[s.at() + x.len()]));
    }
    assert forall|j: int| 0 <= j < i implies members.contains(#[trigger] x[j]) == !stop_in_set by {
        assert(!p(m[s.at() + j]));
    }
    if i < x.len() {
        assert(x[i] == m[s.at() + i]);
        assert(p(m[s.at() + i]));
        assert(m[s.at() + i] != 0);
    }
}

/// A set of arguments holds their low bytes, in order, up to the first that is
/// zero.
pub proof fn law_const_set_members(args: Seq<i32>, n: int)
    requires
        0 <= n <= args.len(),
        forall|i: int| 0 <= i < n ==> #[trigger] args[i] % 256 != 0,
        n < args.len() ==> args[n] % 256 == 0,
    ensures
        const_set(args).len() == n,
        forall|i: int|
            0 <= i < n ==> #[trigger] const_set(args)[i] == (args[i] as int % 256) as u8,
    decreases args.len(),
{
    if n > 0 {
        let rest = args.drop_first();
        assert(args[0] % 256 != 0);
        assert forall|i: int| 0 <= i < n - 1 implies #[trigger] rest[i] % 256 != 0 by {
            assert(args[i + 1] % 256 != 0);
        }
        law_const_set_members(rest, n - 1);
        let all = const_set(args);
        assert(all == seq![low_byte(args[0])] + const_set(rest));
        assert forall|i: int| 0 <= i < n implies #[trigger] all[i] == (args[i] as int % 256)
            as u8 by {
            if i > 0 {
                assert(all[i] == const_set(rest)[i - 1]);
            }
        }
    }
}

/// A span over a set of arguments is the longest front of the string whose bytes
/// all lie in the set, or all outside of it; a search gives the address of the
/// first byte in the set, and null where there is none.
pub proof fn law_const_span_is_the_longest_front(m: Seq<u8>, rt: Runtime, s: Ptr, set: Seq<u8>)
    requires
        readable(m, s.at(), s.remaining),
        s.addr != 0,
        !(rt.action is Deny),
        set.len() > 0,
    ensures
        ({
            let x = c_bytes(m, s.at(), s.remaining);
            let inside = const_span(m, rt, s, set, ConstSetScanMode::SpanAccepted);
            let outside = const_span(m, rt, s, set, ConstSetScanMode::SpanRejected);
            let member = const_pbrk(m, rt, s, set);
            &&& 0 <= inside <= x.len() && 0 <= outside <= x.len()
            &&& forall|j: int| 0 <= j < inside ==> set.contains(#[trigger] x[j])
            &&& inside < x.len() ==> !set.contains(x[inside])
            &&& forall|j: int| 0 <= j < outside ==> !set.contains(#[trigger] x[j])
            &&& outside < x.len() ==> set.contains(x[outside]) && member == s.addr + outside
            &&& outside == x.len() ==> member == 0
        }),
{
    let b = s.remaining;
    let x = c_bytes(m, s.at(), b);
    lemma_c_len(m, s.at(), b);
    lemma_const_stop(m, s.at(), set, ConstSetScanMode::SpanAccepted, b);
    lemma_const_stop(m, s.at(), set, ConstSetScanMode::SpanRejected, b);
    lemma_const_stop(m, s.at(), set, ConstSetScanMode::FindMember, b);
}

/// Where a scan over a set of arguments stops.
proof fn lemma_const_stop(
    m: Seq<u8>,
    s: int,
    set: Seq<u8>,
    mode: ConstSetScanMode,
    b: Option<usize>,
)
    requires
        readable(m, s, b),
    ensures
        ({
            let x = c_bytes(m, s, b);
            let i = const_set_stop(m, s, set, mode, b);
            &&& 0 <= i <= x.len()
            &&& forall|j: int|
                0 <= j < i ==> set.contains(#[trigger] x[j]) == (mode is SpanAccepted)
            &&& i < x.len() ==> i < extent(m, s, b) && x[i] != 0 && x[i] == m[s + i]
                && set.contains(x[i]) != (mode is SpanAccepted)
            &&& i == x.len() && i < extent(m, s, b) ==> m[s + i] == 0
        }),
{
    let x = c_bytes(m, s, b);
    let n = extent(m, s, b);
    let p = is_stop(set, !(mode is SpanAccepted));
    let i = const_set_stop(m, s, set, mode, b);
    lemma_c_len(m, s, b);
    lemma_find(m, s, n, p);
    if i > x.len() {
        assert(!p(m[s + x.len()]));
    }
    assert forall|j: int| 0 <= j < i implies set.contains(#[trigger] x[j]) == (
    mode is SpanAccepted) by {
        assert(!p(m[s + j]));
    }
    if i < x.len() {
        assert(x[i] == m[s + i]);
        assert(p(m[s + i]));
    }
}

/// A denied call, a null string and, where a member is needed, an empty set give
/// nothing.
pub proof fn law_const_span_of_nothing(m: Seq<u8>, rt: Runtime, s: Ptr, set: Seq<u8>)
    requires
        s.addr == 0 || rt.action is Deny || set.len() == 0,
    ensures
        const_span(m, rt, s, set, ConstSetScanMode::SpanAccepted) == 0,
        const_pbrk(m, rt, s, set) == 0,
        s.addr == 0 || rt.action is Deny ==> const_span(
            m,
            rt,
            s,
            set,
            ConstSetScanMode::SpanRejected,
        ) == 0,
{
}

/// A span that is strict leaves no trace. Another one of strings that are there
/// asks the policy once, to read at the string; it is adverse where it is denied
/// or the string is bounded. A missing string leaves the check at its stage.
pub proof fn law_trace_of_a_span(m: Seq<u8>, rt: Runtime, s: Ptr, set: Ptr)
    ensures
        ({
            let ev = span_events(m, rt, s, set);
            let there = s.addr != 0 && set.addr != 0;
            &&& !there ==> ev.len() == 1 && exit_of(ev) == Some(
                stage_place(rt.order@, CheckStage::Null),
            )
            &&& there && rt.strict ==> ev.len() == 0
            &&& there && !rt.strict ==> asks(
                ev,
                Query {
                    addr: s.addr,
                    len: 0,
                    write: false,
                    untracked: s.remaining is None && set.remaining is None,
                },
            ) && verdict(ev) == Some(rt.action is Deny || rt.reach(s) is Some)
        }),
{
}

/// A span over a set of arguments asks the policy once, to read at the string; it
/// is adverse where it is denied, or repaired within an allocation.
pub proof fn law_trace_of_a_const_span(
    m: Seq<u8>,
    rt: Runtime,
    s: Ptr,
    set: Seq<u8>,
    mode: ConstSetScanMode,
)
    requires
        s.addr != 0,
        set.len() > 0,
    ensures
        ({
            let q = Query { addr: s.addr, len: 0, write: false, untracked: s.remaining is None };
            let adverse = rt.action is Deny || ((rt.heals || rt.action is Repair)
                && s.remaining is Some);
            let ev = const_span_events(m, rt, s, set, mode);
            let found = const_pbrk_events(m, rt, s, set);
            &&& asks(ev, q) && verdict(ev) == Some(adverse)
            &&& asks(found, q) && verdict(found) == Some(adverse)
        }),
{
}

} // verus!
