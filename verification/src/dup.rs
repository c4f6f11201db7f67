//! Duplicating strings into blocks from the allocator.
//!
//! The allocator answers between the two halves of a call: the first half says
//! how large a block is asked for, the second takes the block's address, null
//! where the allocator has none.
use vstd::prelude::*;
use crate::copy::{law_strcpy_copies, store_payload};
use crate::membrane::{
    ask_one,
    asks,
    report,
    verdict,
    CheckStage,
    Cost,
    Event,
    Membrane,
    MembraneAction,
    Query,
    Runtime,
};
use crate::memory::{apart, block, mapped, put, Memory, Ptr};
use crate::scan::{
    c_bytes,
    c_len,
    has_nul,
    law_string_bytes,
    lemma_c_len,
    lemma_c_len_is,
    readable,
    scan_c_string,
    scan_c_string_nul_or_bound,
};

verus! {

/// The bound under which `strndup` reads the string.
pub open spec fn strndup_bound(rt: Runtime, s: Ptr, n: usize) -> Option<usize> {
    if !rt.strict && rt.repairs() {
        match s.remaining {
            Some(b) => if b < n {
                Some(b)
            } else {
                Some(n)
            },
            None => None,
        }
    } else {
        Some(n)
    }
}

/// The bound under which a string is duplicated, of at most `n` bytes where a
/// limit is given.
pub open spec fn dup_bound(rt: Runtime, s: Ptr, n: Option<usize>) -> Option<usize> {
    match n {
        Some(k) => strndup_bound(rt, s, k),
        None => rt.reach(s),
    }
}

/// How many bytes of the string are duplicated.
pub open spec fn dup_len(m: Seq<u8>, rt: Runtime, s: Ptr, n: Option<usize>) -> int {
    let len = c_len(m, s.at(), dup_bound(rt, s, n));
    match n {
        Some(k) => if len < k {
            len
        } else {
            k as int
        },
        None => len,
    }
}

/// The bytes that are duplicated.
pub open spec fn dup_bytes(m: Seq<u8>, rt: Runtime, s: Ptr, n: Option<usize>) -> Seq<u8> {
    c_bytes(m, s.at(), dup_bound(rt, s, n)).take(dup_len(m, rt, s, n))
}

/// The exchanges of a duplication with the runtime; the length asked about is
/// `asked`.
pub open spec fn dup_events(m: Seq<u8>, rt: Runtime, s: Ptr, n: Option<usize>) -> Seq<Event> {
    let len = dup_len(m, rt, s, n);
    let bound = dup_bound(rt, s, n);
    let asked = match n {
        Some(k) => k,
        None => 0,
    };
    if rt.strict {
        if s.null() {
            seq![]
        } else {
            seq![Event::Alloc { size: (len + 1) as usize }]
        }
    } else if s.null() {
        seq![rt.outcome_one(s, CheckStage::Null)]
    } else if rt.denies() {
        seq![
            ask_one(s, asked, false),
            rt.outcome_one(s, CheckStage::Arena),
            report(Cost::Flat(7), true),
        ]
    } else {
        seq![
            ask_one(s, asked, false),
            Event::Alloc { size: (len + 1) as usize },
            rt.outcome_one(s, CheckStage::Bounds),
            report(Cost::Scaled(8, len as usize), bound is Some && bound != n),
        ]
    }
}

/// The string, read under its bound, may be looked at.
pub open spec fn dup_ready(m: Seq<u8>, rt: Runtime, s: Ptr, n: Option<usize>) -> bool {
    !s.null() && rt.serves() ==> readable(m, s.at(), dup_bound(rt, s, n))
}

/// The block that the allocator gave can take the string.
pub open spec fn dup_fits(m: Seq<u8>, rt: Runtime, s: Ptr, n: Option<usize>, dst: usize) -> bool {
    !s.null() && rt.serves() && dst != 0 ==> mapped(m, dst as int, dup_len(m, rt, s, n) + 1)
        && apart(dst as int, dup_len(m, rt, s, n) + 1, s.at(), dup_len(m, rt, s, n))
}

fn measure(mem: &Memory, s: Ptr, n: Option<usize>, cx: &Membrane) -> (r: usize)
    requires
        !s.null(),
        readable(mem@, s.at(), dup_bound(cx.rt, s, n)),
    ensures
        r == dup_len(mem@, cx.rt, s, n),
        s.addr + r <= mem@.len(),
{
    proof {
        lemma_c_len(mem@, s.at(), dup_bound(cx.rt, s, n));
    }
    match n {
        None => {
            let bound: Option<usize> = if cx.rt.strict {
                None
            } else {
                cx.bound(s)
            };
            let (len, _ended) = scan_c_string(mem, s.addr, bound);
            len
        },
        Some(k) => {
            let bound: Option<usize> = if !cx.rt.strict && cx.repairs() {
                match s.remaining {
                    Some(b) => if b < k {
                        Some(b)
                    } else {
                        Some(k)
                    },
                    None => None,
                }
            } else {
                Some(k)
            };
            let (len, _ended) = match bound {
                Some(b) => scan_c_string_nul_or_bound(mem, s.addr, b),
                None => scan_c_string(mem, s.addr, None),
            };
            if len < k {
                len
            } else {
                k
            }
        },
    }
}

/// The size of the block that a duplication asks the allocator for; `None` where
/// it asks for none.
pub fn dup_request(mem: &Memory, s: Ptr, n: Option<usize>, cx: &Membrane) -> (r: Option<usize>)
    requires
        dup_ready(mem@, cx.rt, s, n),
    ensures
        r is None == (s.null() || !cx.rt.serves()),
        r matches Some(k) ==> k == dup_len(mem@, cx.rt, s, n) + 1,
{
    let size: usize = mem.size();
    if s.is_null() {
        return None;
    }
    if !cx.rt.strict && matches!(cx.rt.action, MembraneAction::Deny) {
        return None;
    }
    Some(measure(mem, s, n, cx) + 1)
}

fn duplicate(
    mem: &mut Memory,
    s: Ptr,
    n: Option<usize>,
    dst: usize,
    cx: &mut Membrane,
) -> (r: usize)
    requires
        dup_ready(old(mem)@, old(cx).rt, s, n),
        dup_fits(old(mem)@, old(cx).rt, s, n, dst),
    ensures
        r == if s.null() || !old(cx).rt.serves() {
            0
        } else {
            dst
        },
        final(mem)@ == if r == 0 {
            old(mem)@
        } else {
            put(old(mem)@, dst as int, dup_bytes(old(mem)@, old(cx).rt, s, n).push(0))
        },
        final(cx).follows(*old(cx), dup_events(old(mem)@, old(cx).rt, s, n)),
{
    let size: usize = mem.size();
    let ghost m = mem@;
    if s.is_null() {
        if !cx.rt.strict {
            cx.outcome_one(s, CheckStage::Null);
        }
        return 0;
    }
    let asked: usize = match n {
        Some(k) => k,
        None => 0,
    };
    if !cx.rt.strict {
        if !cx.ask_one(s, asked, false) {
            cx.outcome_one(s, CheckStage::Arena);
            cx.observe(Cost::Flat(7), true);
            return 0;
        }
    }
    let len: usize = measure(mem, s, n, cx);
    cx.note(Event::Alloc { size: len + 1 });
    if dst != 0 {
        proof {
            lemma_c_len(m, s.at(), dup_bound(cx.rt, s, n));
        }
        store_payload(mem, dst, s.addr, len);
        assert(block(m, s.at(), len as int) =~= dup_bytes(m, cx.rt, s, n));
    }
    if !cx.rt.strict {
        let cut: bool = match n {
            None => cx.bound(s).is_some(),
            Some(k) => if cx.repairs() {
                match s.remaining {
                    Some(b) => b < k,
                    None => false,
                }
            } else {
                false
            },
        };
        cx.outcome_one(s, CheckStage::Bounds);
        cx.observe(Cost::Scaled(8, len), cut);
    }
    dst
}

/// Duplicates the string at `s` into the block at `dst` and returns `dst`; null
/// for a null pointer and for a denied call.
pub fn strdup(mem: &mut Memory, s: Ptr, dst: usize, cx: &mut Membrane) -> (r: usize)
    requires
        dup_ready(old(mem)@, old(cx).rt, s, None),
        dup_fits(old(mem)@, old(cx).rt, s, None, dst),
    ensures
        r == if s.null() || !old(cx).rt.serves() {
            0
        } else {
            dst
        },
        final(mem)@ == if r == 0 {
            old(mem)@
        } else {
            put(
                old(mem)@,
                dst as int,
                c_bytes(old(mem)@, s.at(), old(cx).rt.reach(s)).push(0),
            )
        },
        final(cx).follows(*old(cx), dup_events(old(mem)@, old(cx).rt, s, None)),
{
    proof {
        let b = c_bytes(mem@, s.at(), cx.rt.reach(s));
        assert(b.take(b.len() as int) =~= b);
        if !s.null() && cx.rt.serves() {
            lemma_c_len(mem@, s.at(), cx.rt.reach(s));
        }
    }
    duplicate(mem, s, None, dst, cx)
}

/// As [`strdup`].
pub fn __strdup(mem: &mut Memory, s: Ptr, dst: usize, cx: &mut Membrane) -> (r: usize)
    requires
        dup_ready(old(mem)@, old(cx).rt, s, None),
        dup_fits(old(mem)@, old(cx).rt, s, None, dst),
    ensures
        r == if s.null() || !old(cx).rt.serves() {
            0
        } else {
            dst
        },
        final(mem)@ == if r == 0 {
            old(mem)@
        } else {
            put(
                old(mem)@,
                dst as int,
                c_bytes(old(mem)@, s.at(), old(cx).rt.reach(s)).push(0),
            )
        },
        final(cx).follows(*old(cx), dup_events(old(mem)@, old(cx).rt, s, None)),
{
    strdup(mem, s, dst, cx)
}

/// Duplicates the string at `s`, or its first `n` bytes, with a NUL into the
/// block at `dst` and returns `dst`; null for a null pointer and for a denied
/// call.
pub fn strndup(mem: &mut Memory, s: Ptr, n: usize, dst: usize, cx: &mut Membrane) -> (r: usize)
    requires
        dup_ready(old(mem)@, old(cx).rt, s, Some(n)),
        dup_fits(old(mem)@, old(cx).rt, s, Some(n), dst),
    ensures
        r == if s.null() || !old(cx).rt.serves() {
            0
        } else {
            dst
        },
        final(mem)@ == if r == 0 {
            old(mem)@
        } else {
            put(old(mem)@, dst as int, dup_bytes(old(mem)@, old(cx).rt, s, Some(n)).push(0))
        },
        final(cx).follows(*old(cx), dup_events(old(mem)@, old(cx).rt, s, Some(n))),
{
    duplicate(mem, s, Some(n), dst, cx)
}

/// As [`strndup`].
pub fn __strndup(mem: &mut Memory, s: Ptr, n: usize, dst: usize, cx: &mut Membrane) -> (r: usize)
    requires
        dup_ready(old(mem)@, old(cx).rt, s, Some(n)),
        dup_fits(old(mem)@, old(cx).rt, s, Some(n), dst),
    ensures
        r == if s.null() || !old(cx).rt.serves() {
            0
        } else {
            dst
        },
        final(mem)@ == if r == 0 {
            old(mem)@
        } else {
            put(old(mem)@, dst as int, dup_bytes(old(mem)@, old(cx).rt, s, Some(n)).push(0))
        },
        final(cx).follows(*old(cx), dup_events(old(mem)@, old(cx).rt, s, Some(n))),
{
    strndup(mem, s, n, dst, cx)
}

/// A duplicate reads back as the string it was made of, and the string is still
/// there.
pub proof fn law_duplicate_reads_back(m: Seq<u8>, s: int, d: int)
    requires
        readable(m, s, None),
        mapped(m, d, c_len(m, s, None) + 1),
        apart(d, c_len(m, s, None) + 1, s, c_len(m, s, None) + 1),
    ensures
        ({
            let b = c_bytes(m, s, None);
            let m2 = put(m, d, b.push(0));
            c_bytes(m2, d, None) == b && c_bytes(m2, s, None) == b
        }),
{
    law_strcpy_copies(m, d, s);
    lemma_c_len(m, s, None);
    let n = c_len(m, s, None);
    let b = c_bytes(m, s, None);
    let m2 = put(m, d, b.push(0));
    assert forall|j: int| s <= j <= s + n implies #[trigger] m2[j] == m[j] by {}
    assert(m2[s + n] == 0);
    assert(has_nul(m2, s));
    lemma_c_len_is(m2, s, None, n);
    assert(c_bytes(m2, s, None) =~= b);
}

/// A duplicate holds the bytes of the string in order, and ends where the string
/// does, after the number of bytes that was given, or, in a repaired call, at the
/// end of the allocation: whichever comes first.
pub proof fn law_duplicate_is_the_longest_front(
    m: Seq<u8>,
    rt: Runtime,
    s: Ptr,
    n: Option<usize>,
    i: int,
)
    requires
        readable(m, s.at(), dup_bound(rt, s, n)),
    ensures
        ({
            let b = dup_bytes(m, rt, s, n);
            let limited = !rt.strict && (rt.heals || rt.action is Repair);
            let k = b.len();
            &&& k == dup_len(m, rt, s, n)
            &&& 0 <= i < k ==> b[i] == m[s.addr + i] && b[i] != 0
            &&& n is Some ==> k <= n->Some_0
            &&& limited && s.remaining is Some ==> k <= s.remaining->Some_0
            &&& {
                ||| n == Some(k as usize)
                ||| limited && s.remaining == Some(k as usize)
                ||| s.addr + k < m.len() && m[s.addr + k] == 0
            }
        }),
{
    let d = dup_bound(rt, s, n);
    lemma_c_len(m, s.at(), d);
    law_string_bytes(m, s.at(), d, i);
    if 0 <= i < dup_len(m, rt, s, n) {
        assert(c_bytes(m, s.at(), d).contains(c_bytes(m, s.at(), d)[i]));
    }
}

/// A duplicate takes a block for its bytes and a NUL from the allocator, in a
/// strict call without further trace. Another call asks the policy once, to read
/// at the string, and takes a block only where it is not denied; it is adverse
/// where it is denied, or where another bound than the caller's holds.
pub proof fn law_trace_of_a_duplicate(m: Seq<u8>, rt: Runtime, s: Ptr, n: Option<usize>)
    requires
        s.addr != 0,
        readable(m, s.at(), dup_bound(rt, s, n)),
        m.len() <= usize::MAX,
    ensures
        ({
            let ev = dup_events(m, rt, s, n);
            let asked = match n {
                Some(k) => k,
                None => 0,
            };
            let q = Query { addr: s.addr, len: asked, write: false, untracked: s.remaining is None };
            &&& rt.strict ==> ev.len() == 1 && ev[0] == Event::Alloc {
                size: (dup_bytes(m, rt, s, n).len() + 1) as usize,
            }
            &&& !rt.strict ==> asks(ev, q)
            &&& !rt.strict && rt.action is Deny ==> verdict(ev) == Some(true) && ev.len() == 3
            &&& !rt.strict && !(rt.action is Deny) ==> verdict(ev) == Some(
                dup_bound(rt, s, n) is Some && dup_bound(rt, s, n) != n,
            ) && ev[1] == Event::Alloc { size: (dup_bytes(m, rt, s, n).len() + 1) as usize }
        }),
{
    law_duplicate_is_the_longest_front(m, rt, s, n, 0);
}

} // verus!
