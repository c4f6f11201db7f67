//! Spans over byte sets: how far a string runs inside, or outside, a set.
//!
//! The set is itself a C string, so it never holds the NUL.
use vstd::prelude::*;
use crate::memory::{block, mapped, Memory};
use crate::scan::{
    c_bytes,
    c_len,
    find,
    has_nul,
    is_byte_or_nul,
    is_first,
    is_not_byte,
    is_stop,
    lemma_c_len,
    lemma_find,
    lemma_find_is,
    scan_c_string,
    scan_c_string_first_not_byte,
    scan_c_string_for_byte,
    scan_c_string_for_set4,
};

verus! {

/// Bytes of a string that the set probe looks at.
pub const CMPISTRI_PROBE_BYTES: usize = 128;

/// Blocks of sixteen set bytes that the set probe can hold.
pub const CMPISTRI_MAX_NEEDLES: usize = 4;

/// A NUL-terminated string starts at `a`.
pub open spec fn terminated(m: Seq<u8>, a: usize) -> bool {
    a <= m.len() && has_nul(m, a as int)
}

/// The bytes of the C string at `a`.
pub open spec fn set_of(m: Seq<u8>, a: usize) -> Seq<u8> {
    c_bytes(m, a as int, None)
}

/// The offset from `s` of the first stop over `set`.
pub open spec fn stop_of(m: Seq<u8>, s: usize, set: Seq<u8>, stop_in_set: bool) -> int {
    find(m, s as int, m.len() - s, is_stop(set, stop_in_set))
}

/// Facts of [`stop_of`] on a terminated string.
pub proof fn lemma_stop_of(m: Seq<u8>, s: usize, set: Seq<u8>, stop_in_set: bool)
    requires
        terminated(m, s),
    ensures
        0 <= stop_of(m, s, set, stop_in_set),
        s + stop_of(m, s, set, stop_in_set) < m.len(),
        stop_of(m, s, set, stop_in_set) <= c_len(m, s as int, None),
        ({
            let b = m[s + stop_of(m, s, set, stop_in_set)];
            b == 0 || set.contains(b) == stop_in_set
        }),
        forall|j: int|
            s <= j < s + stop_of(m, s, set, stop_in_set) ==> #[trigger] m[j] != 0 && set.contains(
                m[j],
            ) != stop_in_set,
{
    let p = is_stop(set, stop_in_set);
    lemma_find(m, s as int, m.len() - s, p);
    lemma_c_len(m, s as int, None);
    let f = stop_of(m, s, set, stop_in_set);
    assert forall|j: int| s <= j < s + f implies #[trigger] m[j] != 0 && set.contains(m[j])
        != stop_in_set by {
        assert(!p(m[j]));
    }
    let e = c_len(m, s as int, None);
    if f > e {
        assert(m[s + e] != 0);
    }
}

/// A first stop is the one that [`stop_of`] gives.
pub proof fn lemma_stop_of_is(m: Seq<u8>, s: usize, set: Seq<u8>, stop_in_set: bool, i: int)
    requires
        0 <= i,
        s + i < m.len(),
        m[s + i] == 0 || set.contains(m[s + i]) == stop_in_set,
        forall|j: int|
            s <= j < s + i ==> #[trigger] m[j] != 0 && set.contains(m[j]) != stop_in_set,
    ensures
        stop_of(m, s, set, stop_in_set) == i,
{
    assert(is_first(m, s as int, m.len() - s, is_stop(set, stop_in_set), i));
    lemma_find_is(m, s as int, m.len() - s, is_stop(set, stop_in_set), i);
}

/// The stop of a string depends on the members of the set alone.
pub proof fn lemma_stop_of_same(m: Seq<u8>, s: usize, a: Seq<u8>, b: Seq<u8>, stop_in_set: bool)
    requires
        terminated(m, s),
        forall|x: u8| x != 0 ==> a.contains(x) == b.contains(x),
    ensures
        stop_of(m, s, a, stop_in_set) == stop_of(m, s, b, stop_in_set),
{
    lemma_stop_of(m, s, a, stop_in_set);
    lemma_stop_of_is(m, s, b, stop_in_set, stop_of(m, s, a, stop_in_set));
}

/// Facts of [`set_of`] on a terminated set.
pub proof fn lemma_set_of(m: Seq<u8>, a: usize)
    requires
        terminated(m, a),
    ensures
        set_of(m, a).len() == c_len(m, a as int, None),
        a + set_of(m, a).len() < m.len(),
        forall|i: int| 0 <= i < set_of(m, a).len() ==> #[trigger] set_of(m, a)[i] == m[a + i],
        !set_of(m, a).contains(0),
        m[a + set_of(m, a).len()] == 0,
{
    lemma_c_len(m, a as int, None);
    let set = set_of(m, a);
    if set.contains(0) {
        let i = choose|i: int| 0 <= i < set.len() && set[i] == 0;
        assert(m[a + i] == 0);
    }
}

/// Whether `b` is one of the `len` bytes at `set`.
fn set_has(mem: &Memory, set: usize, len: usize, b: u8) -> (r: bool)
    requires
        mapped(mem@, set as int, len as int),
    ensures
        r == block(mem@, set as int, len as int).contains(b),
{
    let size: usize = mem.size();
    let ghost members = block(mem@, set as int, len as int);
    let mut i: usize = 0;
    while i < len
        invariant
            i <= len,
            set + len <= size,
            size == mem@.len(),
            members == block(mem@, set as int, len as int),
            forall|j: int| 0 <= j < i ==> #[trigger] members[j] != b,
        decreases len - i,
    {
        if mem.load(set + i) == b {
            assert(members[i as int] == b);
            return true;
        }
        i += 1;
    }
    false
}

/// Whether the `len` bytes at `p` are all ASCII.
pub fn all_bytes_ascii(mem: &Memory, p: usize, len: usize) -> (r: bool)
    requires
        mapped(mem@, p as int, len as int),
    ensures
        r == ascii_set(block(mem@, p as int, len as int)),
{
    let size: usize = mem.size();
    let mut i: usize = 0;
    while i < len
        invariant
            i <= len,
            p + len <= size,
            size == mem@.len(),
            forall|j: int| p <= j < p + i ==> #[trigger] mem@[j] < 0x80,
        decreases len - i,
    {
        if mem.load(p + i) >= 0x80 {
            assert(block(mem@, p as int, len as int)[i as int] >= 0x80);
            return false;
        }
        i += 1;
    }
    true
}

/// Every byte of the set is ASCII.
pub open spec fn ascii_set(set: Seq<u8>) -> bool {
    forall|i: int| 0 <= i < set.len() ==> #[trigger] set[i] < 0x80
}

/// Membership of `b` in the set that two nibble tables stand for.
pub open spec fn lut_has(lo: Seq<u8>, hi: Seq<u8>, b: u8) -> bool {
    lo[(b & 0xf) as int] & hi[(b >> 4u8) as int] != 0
}

/// The nibble tables of the ASCII set of `set_len` bytes at `set`: the first
/// holds, for each low nibble, the high nibbles that occur with it, one bit
/// each; the second the bit of each high nibble.
pub fn build_pshufb_lut(mem: &Memory, set: usize, set_len: usize) -> (r: ([u8; 16], [u8; 16]))
    requires
        mapped(mem@, set as int, set_len as int),
        ascii_set(block(mem@, set as int, set_len as int)),
    ensures
        forall|b: u8| #[trigger]
            lut_has(r.0@, r.1@, b) == block(mem@, set as int, set_len as int).contains(b),
{
    let size: usize = mem.size();
    let ghost members = block(mem@, set as int, set_len as int);
    let hi: [u8; 16] = [1, 2, 4, 8, 16, 32, 64, 128, 0, 0, 0, 0, 0, 0, 0, 0];
    let mut lo: [u8; 16] = [0; 16];
    assert forall|b: u8| !#[trigger] lut_has(lo@, hi@, b) by {
        assert(b & 0xf < 16) by (bit_vector);
        let h = hi@[(b >> 4u8) as int];
        assert(0u8 & h == 0) by (bit_vector);
    }
    let mut i: usize = 0;
    while i < set_len
        invariant
            i <= set_len,
            set + set_len <= size,
            size == mem@.len(),
            members == block(mem@, set as int, set_len as int),
            ascii_set(members),
            hi@ == seq![1u8, 2, 4, 8, 16, 32, 64, 128, 0, 0, 0, 0, 0, 0, 0, 0],
            forall|b: u8| #[trigger]
                lut_has(lo@, hi@, b) == (exists|j: int| 0 <= j < i && #[trigger] members[j] == b),
        decreases set_len - i,
    {
        let v: u8 = mem.load(set + i);
        assert(members[i as int] == v);
        assert(v & 0xf < 16 && v >> 4u8 < 8) by (bit_vector)
            requires
                v < 0x80,
        ;
        let slot: usize = (v & 0xf) as usize;
        let bit: u8 = 1u8 << (v >> 4u8);
        let ghost before = lo@;
        lo[slot] = lo[slot] | bit;
        assert forall|b: u8| #[trigger]
            lut_has(lo@, hi@, b) == (exists|j: int|
            0 <= j < i + 1 && #[trigger] members[j] == b) by {
            lemma_lut_step(before, hi@, v, b);
            assert(lut_has(before, hi@, b) == (exists|j: int|
                0 <= j < i && #[trigger] members[j] == b));
            if lut_has(before, hi@, b) {
                let j = choose|j: int| 0 <= j < i && #[trigger] members[j] == b;
                assert(0 <= j < i + 1 && members[j] == b);
            }
            if b == v {
                assert(members[i as int] == b);
            }
            if exists|j: int| 0 <= j < i + 1 && #[trigger] members[j] == b {
                let j = choose|j: int| 0 <= j < i + 1 && #[trigger] members[j] == b;
                if j < i {
                    assert(0 <= j < i && members[j] == b);
                }
            }
        }
        i += 1;
    }
    assert forall|b: u8| #[trigger] lut_has(lo@, hi@, b) == members.contains(b) by {
        if lut_has(lo@, hi@, b) {
            let j = choose|j: int| 0 <= j < i && #[trigger] members[j] == b;
            assert(members[j] == b);
        }
        if members.contains(b) {
            let j = choose|j: int| 0 <= j < members.len() && members[j] == b;
            assert(0 <= j < i && members[j] == b);
        }
    }
    (lo, hi)
}

/// Entering `v` in the tables adds `v` to the set and nothing else.
proof fn lemma_lut_step(lo: Seq<u8>, hi: Seq<u8>, v: u8, b: u8)
    requires
        lo.len() == 16,
        hi == seq![1u8, 2, 4, 8, 16, 32, 64, 128, 0, 0, 0, 0, 0, 0, 0, 0],
        v < 0x80,
    ensures
        lut_has(lo.update((v & 0xf) as int, lo[(v & 0xf) as int] | (1u8 << (v >> 4u8))), hi, b) == (
        lut_has(lo, hi, b) || b == v),
{
    assert(v & 0xf < 16 && v >> 4u8 < 8 && b & 0xf < 16 && b >> 4u8 < 16) by (bit_vector)
        requires
            v < 0x80,
    ;
    let x = lo[(b & 0xf) as int];
    let h = hi[(b >> 4u8) as int];
    let bn = b >> 4u8;
    if bn < 8 {
        assert(1u8 << 0u8 == 1 && 1u8 << 1u8 == 2 && 1u8 << 2u8 == 4 && 1u8 << 3u8 == 8 && 1u8
            << 4u8 == 16 && 1u8 << 5u8 == 32 && 1u8 << 6u8 == 64 && 1u8 << 7u8 == 128)
            by (bit_vector);
        assert(bn == 0 || bn == 1 || bn == 2 || bn == 3 || bn == 4 || bn == 5 || bn == 6 || bn
            == 7);
        assert(h == 1u8 << bn);
        assert(b & 0xf == v & 0xf ==> (((x | (1u8 << (v >> 4u8))) & h != 0) == ((x & h != 0) || b
            == v))) by (bit_vector)
            requires
                h == 1u8 << bn,
                bn == b >> 4u8,
                bn < 8,
                v < 0x80,
        ;
        assert(b == v ==> b & 0xf == v & 0xf);
    } else {
        assert(h == 0);
        let y = x | (1u8 << (v >> 4u8));
        assert(x & 0u8 == 0 && y & 0u8 == 0) by (bit_vector);
        assert(b >= 0x80) by (bit_vector)
            requires
                bn == b >> 4u8,
                bn >= 8,
        ;
    }
}

/// The first stop of the string at `ptr` over the set that the nibble tables
/// stand for.
pub fn scan_c_string_pshufb(
    mem: &Memory,
    ptr: usize,
    lo: &[u8; 16],
    hi: &[u8; 16],
    stop_in_set: bool,
) -> (r: usize)
    requires
        terminated(mem@, ptr),
    ensures
        ptr + r < mem@.len(),
        mem@[ptr + r] == 0 || lut_has(lo@, hi@, mem@[ptr + r]) == stop_in_set,
        forall|j: int|
            ptr <= j < ptr + r ==> #[trigger] mem@[j] != 0 && lut_has(lo@, hi@, mem@[j])
                != stop_in_set,
{
    let size: usize = mem.size();
    let mut i: usize = 0;
    loop
        invariant
            size == mem@.len(),
            terminated(mem@, ptr),
            ptr + i <= size,
            forall|j: int|
                ptr <= j < ptr + i ==> #[trigger] mem@[j] != 0 && lut_has(lo@, hi@, mem@[j])
                    != stop_in_set,
        decreases size - i,
    {
        proof {
            if ptr + i == size {
                let j = choose|j: int| ptr <= j < mem@.len() && #[trigger] mem@[j] == 0;
                assert(mem@[j] != 0);
            }
        }
        let b: u8 = mem.load(ptr + i);
        assert(b & 0xf < 16 && b >> 4u8 < 16) by (bit_vector);
        let member: bool = lo[(b & 0xf) as usize] & hi[(b >> 4u8) as usize] != 0;
        if b == 0 || member == stop_in_set {
            return i;
        }
        i += 1;
    }
}

/// What the probe of a short string over a set found.
#[derive(Clone, Copy, Debug)]
pub enum SpanProbe {
    /// The first stop.
    Stop(usize),
    /// The first `consumed` bytes hold no stop; what the set is.
    Resume { consumed: usize, set_len: u8, all_ascii: bool },
    /// The probe does not apply; the length of the set where it is below five.
    Decline { known_len: Option<u8> },
}

/// Sixteen bytes from `a` on would leave its page.
pub open spec fn page_tail(a: int) -> bool {
    a % 4096 > 0xff0
}

fn in_page_tail(a: usize) -> (r: bool)
    ensures
        r == page_tail(a as int),
{
    assert(a & 0xfff == a % 4096) by (bit_vector);
    (a & 0xfff) > 0xff0
}

/// How far the probe goes from `s` on, `base` bytes of which are done.
pub open spec fn probe_limit(s: usize, base: int) -> int
    decreases 144 - base,
{
    if base >= 128 || page_tail(s + base) {
        base
    } else {
        probe_limit(s, base + 16)
    }
}

/// The probe takes the set of `len` bytes at `set`.
pub open spec fn probe_takes(set: usize, len: int) -> bool {
    &&& 5 <= len <= 64
    &&& !page_tail(set + 0)
    &&& len > 16 ==> !page_tail(set + 16)
    &&& len >= 32 ==> !page_tail(set + 32)
    &&& len >= 48 ==> !page_tail(set + 48)
}

/// What the probe of the string at `s` over the set at `set` finds.
pub open spec fn probe_result(m: Seq<u8>, s: usize, set: usize, stop_in_set: bool) -> SpanProbe {
    let members = set_of(m, set);
    let stop = stop_of(m, s, members, stop_in_set);
    if probe_takes(set, members.len() as int) {
        if stop < probe_limit(s, 0) {
            SpanProbe::Stop(stop as usize)
        } else {
            SpanProbe::Resume {
                consumed: probe_limit(s, 0) as usize,
                set_len: members.len() as u8,
                all_ascii: ascii_set(members),
            }
        }
    } else if !page_tail(set + 0) && members.len() < 5 {
        SpanProbe::Decline { known_len: Some(members.len() as u8) }
    } else {
        SpanProbe::Decline { known_len: None }
    }
}

fn probe_set(mem: &Memory, set: usize) -> (r: Result<(usize, u8), Option<u8>>)
    requires
        terminated(mem@, set),
    ensures
        ({
            let len = set_of(mem@, set).len() as int;
            match r {
                Ok((n, b)) => probe_takes(set, len) && n == len && b == len,
                Err(o) => !probe_takes(set, len) && o == if !page_tail(set as int) && len < 5 {
                    Some(len as u8)
                } else {
                    None::<u8>
                },
            }
        }),
{
    proof {
        lemma_set_of(mem@, set);
    }
    if in_page_tail(set) {
        return Err(None);
    }
    let size: usize = mem.size();
    let (len, _ended) = scan_c_string(mem, set, None);
    if len < 5 {
        return Err(Some(len as u8));
    }
    if len > 64 || (len > 16 && in_page_tail(set + 16)) || (len >= 32 && in_page_tail(set + 32))
        || (len >= 48 && in_page_tail(set + 48)) {
        return Err(None);
    }
    Ok((len, len as u8))
}

/// Looks for the first stop of the string at `s` over the set at `set`, in
/// blocks of sixteen bytes that each lie in one page.
pub fn span_probe_cmpistri(mem: &Memory, s: usize, set: usize, stop_in_set: bool) -> (r: SpanProbe)
    requires
        terminated(mem@, s),
        terminated(mem@, set),
    ensures
        r == probe_result(mem@, s, set, stop_in_set),
{
    let (len, len8) = match probe_set(mem, set) {
        Ok(p) => p,
        Err(o) => {
            return SpanProbe::Decline { known_len: o };
        },
    };
    let ghost m = mem@;
    let ghost members = set_of(m, set);
    proof {
        lemma_set_of(m, set);
        assert(block(m, set + 0, len + 0) =~= members);
    }
    let all_ascii: bool = all_bytes_ascii(mem, set, len);
    let size: usize = mem.size();
    let mut base: usize = 0;
    while base < CMPISTRI_PROBE_BYTES
        invariant
            m == mem@,
            size == m.len(),
            base <= 128,
            base % 16 == 0,
            terminated(m, s),
            terminated(m, set),
            members == set_of(m, set),
            members == block(m, set + 0, len + 0),
            mapped(m, set + 0, len + 0),
            probe_takes(set, len + 0),
            members.len() == len,
            len == len8,
            all_ascii == ascii_set(members),
            s + base <= size,
            probe_limit(s, 0) == probe_limit(s, base + 0),
            forall|j: int|
                s <= j < s + base ==> #[trigger] m[j] != 0 && members.contains(m[j])
                    != stop_in_set,
        decreases 128 - base,
    {
        if in_page_tail(s + base) {
            proof {
                lemma_no_stop_before(m, s, members, stop_in_set, base + 0);
            }
            return SpanProbe::Resume { consumed: base, set_len: len8, all_ascii };
        }
        let mut k: usize = 0;
        while k < 16
            invariant
                m == mem@,
                size == m.len(),
                k <= 16,
                base < 128,
                terminated(m, s),
                members == block(m, set + 0, len + 0),
                mapped(m, set + 0, len + 0),
                probe_takes(set, len + 0),
                members == set_of(m, set),
                members.len() == len,
                s + base + k <= size,
                !page_tail(s + base),
                probe_limit(s, 0) == probe_limit(s, base + 0),
                forall|j: int|
                    s <= j < s + base + k ==> #[trigger] m[j] != 0 && members.contains(m[j])
                        != stop_in_set,
            decreases 16 - k,
        {
            proof {
                lemma_string_goes_on(m, s, base + k);
            }
            let b: u8 = mem.load(s + base + k);
            if b == 0 || set_has(mem, set, len, b) == stop_in_set {
                proof {
                    lemma_stop_of_is(m, s, members, stop_in_set, base + k);
                    lemma_probe_limit(s, base + 16);
                    assert(probe_limit(s, base + 0) == probe_limit(s, base + 16));
                }
                return SpanProbe::Stop(base + k);
            }
            k += 1;
        }
        base += 16;
    }
    proof {
        lemma_no_stop_before(m, s, members, stop_in_set, base + 0);
    }
    SpanProbe::Resume { consumed: base, set_len: len8, all_ascii }
}

proof fn lemma_probe_limit(s: usize, base: int)
    ensures
        probe_limit(s, base) >= base,
        base <= 128 ==> probe_limit(s, base) < 144,
    decreases 144 - base,
{
    if !(base >= 128 || page_tail(s + base)) {
        lemma_probe_limit(s, base + 16);
    }
}

proof fn lemma_no_stop_before(m: Seq<u8>, s: usize, set: Seq<u8>, stop_in_set: bool, n: int)
    requires
        terminated(m, s),
        forall|j: int| s <= j < s + n ==> #[trigger] m[j] != 0 && set.contains(m[j]) != stop_in_set,
    ensures
        stop_of(m, s, set, stop_in_set) >= n,
{
    lemma_stop_of(m, s, set, stop_in_set);
    let f = stop_of(m, s, set, stop_in_set);
    if f < n {
        assert(m[s + f] != 0 && set.contains(m[s + f]) != stop_in_set);
    }
}

/// Where no NUL was met so far, the string goes on.
pub proof fn lemma_string_goes_on(m: Seq<u8>, s: usize, n: int)
    requires
        terminated(m, s),
        0 <= n,
        s + n <= m.len(),
        forall|j: int| s <= j < s + n ==> #[trigger] m[j] != 0,
    ensures
        s + n < m.len(),
{
    let j = choose|j: int| s <= j < m.len() && #[trigger] m[j] == 0;
    if s + n == m.len() {
        assert(m[j] != 0);
    }
}

/// The first stop of the string at `s` over the set at `set` where the probe,
/// or the nibble tables behind it, can tell.
pub fn span_scan_cmpistri(mem: &Memory, s: usize, set: usize, stop_in_set: bool) -> (r: Option<
    usize,
>)
    requires
        terminated(mem@, s),
        terminated(mem@, set),
    ensures
        match r {
            Some(i) => i == stop_of(mem@, s, set_of(mem@, set), stop_in_set),
            None => !(probe_result(mem@, s, set, stop_in_set) is Stop) && !(probe_result(
                mem@,
                s,
                set,
                stop_in_set,
            ) matches SpanProbe::Resume { consumed: _, set_len: _, all_ascii: true }),
        },
{
    let size: usize = mem.size();
    proof {
        lemma_set_of(mem@, set);
        lemma_stop_of(mem@, s, set_of(mem@, set), stop_in_set);
        lemma_probe_limit(s, 0);
    }
    match span_probe_cmpistri(mem, s, set, stop_in_set) {
        SpanProbe::Stop(idx) => Some(idx),
        SpanProbe::Resume { consumed, set_len, all_ascii } => if all_ascii {
            Some(resume_span(mem, s, set, consumed, set_len, stop_in_set))
        } else {
            None
        },
        SpanProbe::Decline { known_len: _ } => None,
    }
}

/// The first stop over an ASCII set, when the first `consumed` bytes hold none.
pub(crate) fn resume_span(
    mem: &Memory,
    s: usize,
    set: usize,
    consumed: usize,
    set_len: u8,
    stop_in_set: bool,
) -> (r: usize)
    requires
        terminated(mem@, s),
        terminated(mem@, set),
        set_len == set_of(mem@, set).len(),
        ascii_set(set_of(mem@, set)),
        consumed <= stop_of(mem@, s, set_of(mem@, set), stop_in_set),
    ensures
        r == stop_of(mem@, s, set_of(mem@, set), stop_in_set),
{
    let ghost m = mem@;
    let ghost members = set_of(m, set);
    proof {
        lemma_set_of(m, set);
        lemma_stop_of(m, s, members, stop_in_set);
        assert(block(m, set as int, set_len as int) =~= members);
        let e = c_len(m, s as int, None);
        lemma_c_len(m, s as int, None);
        assert(m[s + e] == 0);
    }
    let size: usize = mem.size();
    let (lo, hi) = build_pshufb_lut(mem, set, set_len as usize);
    let i: usize = scan_c_string_pshufb(mem, s + consumed, &lo, &hi, stop_in_set);
    proof {
        assert(lut_has(lo@, hi@, m[s + consumed + i]) == members.contains(m[s + consumed + i]));
        assert forall|j: int| s <= j < s + consumed + i implies #[trigger] m[j] != 0
            && members.contains(m[j]) != stop_in_set by {
            if j >= s + consumed {
                assert(lut_has(lo@, hi@, m[j]) == members.contains(m[j]));
            }
        }
        lemma_stop_of_is(m, s, members, stop_in_set, consumed + i);
    }
    consumed + i
}

/// Four bytes with the members of a set of one to four bytes.
fn set4_at(mem: &Memory, set: usize, len: usize) -> (r: [u8; 4])
    requires
        1 <= len <= 4,
        mapped(mem@, set as int, len as int),
    ensures
        forall|x: u8| #[trigger]
            r@.contains(x) == block(mem@, set as int, len as int).contains(x),
{
    let size: usize = mem.size();
    let ghost members = block(mem@, set as int, len as int);
    let d0: u8 = mem.load(set);
    let d1: u8 = if len > 1 {
        mem.load(set + 1)
    } else {
        d0
    };
    let d2: u8 = if len > 2 {
        mem.load(set + 2)
    } else {
        d0
    };
    let d3: u8 = if len > 3 {
        mem.load(set + 3)
    } else {
        d2
    };
    let r: [u8; 4] = [d0, d1, d2, d3];
    proof {
        assert(members[0] == d0);
        assert(len > 1 ==> members[1] == d1);
        assert(len > 2 ==> members[2] == d2);
        assert(len > 3 ==> members[3] == d3);
        assert(r@[0] == d0 && r@[1] == d1 && r@[2] == d2 && r@[3] == d3);
        assert forall|x: u8| #[trigger] r@.contains(x) == members.contains(x) by {
            if r@.contains(x) {
                let i = choose|i: int| 0 <= i < 4 && r@[i] == x;
                assert(i == 0 || i == 1 || i == 2 || i == 3);
                assert(members[0] == x || (len > 1 && members[1] == x) || (len > 2 && members[2]
                    == x) || (len > 3 && members[3] == x));
            }
            if members.contains(x) {
                let i = choose|i: int| 0 <= i < members.len() && members[i] == x;
                assert(r@[i] == x);
            }
        }
    }
    r
}

/// The first stop of the string at `s` over the `set_len` bytes at `set`, byte
/// by byte. Neither has to end in a NUL inside its bound.
pub(crate) fn span_core(
    mem: &Memory,
    s: usize,
    s_len: usize,
    set: usize,
    set_len: usize,
    stop_in_set: bool,
) -> (r: usize)
    requires
        mapped(mem@, s as int, s_len as int),
        mapped(mem@, set as int, set_len as int),
    ensures
        r == find(
            mem@,
            s as int,
            s_len as int,
            is_stop(block(mem@, set as int, set_len as int), stop_in_set),
        ),
        r <= s_len,
{
    let ghost m = mem@;
    let ghost members = block(m, set as int, set_len as int);
    let ghost p = is_stop(members, stop_in_set);
    let size: usize = mem.size();
    let mut i: usize = 0;
    while i < s_len
        invariant
            m == mem@,
            size == m.len(),
            i <= s_len,
            s + s_len <= size,
            mapped(m, set as int, set_len as int),
            members == block(m, set as int, set_len as int),
            p == is_stop(members, stop_in_set),
            forall|j: int| s <= j < s + i ==> !p(#[trigger] m[j]),
        ensures
            is_first(m, s as int, s_len as int, p, i as int),
        decreases s_len - i,
    {
        let b: u8 = mem.load(s + i);
        if b == 0 || set_has(mem, set, set_len, b) == stop_in_set {
            break;
        }
        i += 1;
    }
    proof {
        lemma_find_is(m, s as int, s_len as int, p, i as int);
    }
    i
}

/// The first stop of the string at `s` over the set of `set_len` bytes at
/// `set`.
///
/// Sets of one to four bytes are compared directly; larger ones are probed, then
/// looked up in nibble tables where they are ASCII, and searched otherwise.
pub(crate) fn span_stop(
    mem: &Memory,
    s: usize,
    set: usize,
    set_len: usize,
    stop_in_set: bool,
) -> (r: usize)
    requires
        terminated(mem@, s),
        terminated(mem@, set),
        set_len == set_of(mem@, set).len(),
    ensures
        r == stop_of(mem@, s, set_of(mem@, set), stop_in_set),
        s + r < mem@.len(),
{
    proof {
        lemma_set_of(mem@, set);
        lemma_stop_of(mem@, s, set_of(mem@, set), stop_in_set);
    }
    if set_len == 1 {
        single_span(mem, s, set, stop_in_set)
    } else if 2 <= set_len && set_len <= 4 {
        small_span(mem, s, set, set_len, stop_in_set)
    } else {
        if 5 <= set_len && set_len <= 64 {
            match span_scan_cmpistri(mem, s, set, stop_in_set) {
                Some(i) => {
                    return i;
                },
                None => {},
            }
        }
        large_span(mem, s, set, set_len, stop_in_set)
    }
}

fn single_span(mem: &Memory, s: usize, set: usize, stop_in_set: bool) -> (r: usize)
    requires
        terminated(mem@, s),
        terminated(mem@, set),
        set_of(mem@, set).len() == 1,
    ensures
        r == stop_of(mem@, s, set_of(mem@, set), stop_in_set),
{
    let ghost m = mem@;
    let ghost members = set_of(m, set);
    proof {
        lemma_set_of(m, set);
    }
    let c: u8 = mem.load(set);
    proof {
        assert(members[0] == c);
        assert forall|x: u8| members.contains(x) == (x == c) by {
            if members.contains(x) {
                let i = choose|i: int| 0 <= i < members.len() && members[i] == x;
                assert(i == 0);
            }
        }
        lemma_find(m, s as int, m.len() - s, is_byte_or_nul(c));
        lemma_find(m, s as int, m.len() - s, is_not_byte(c));
    }
    if stop_in_set {
        let (i, _found, _hit) = scan_c_string_for_byte(mem, s, c, None);
        proof {
            let p = is_byte_or_nul(c);
            assert forall|j: int| s <= j < s + i implies #[trigger] m[j] != 0 && members.contains(
                m[j],
            ) != stop_in_set by {
                assert(!p(m[j]));
            }
            lemma_stop_of_is(m, s, members, stop_in_set, i as int);
        }
        i
    } else {
        let i: usize = scan_c_string_first_not_byte(mem, s, c);
        proof {
            let p = is_not_byte(c);
            assert forall|j: int| s <= j < s + i implies #[trigger] m[j] != 0 && members.contains(
                m[j],
            ) != stop_in_set by {
                assert(!p(m[j]));
            }
            lemma_stop_of_is(m, s, members, stop_in_set, i as int);
        }
        i
    }
}

fn small_span(mem: &Memory, s: usize, set: usize, set_len: usize, stop_in_set: bool) -> (r: usize)
    requires
        terminated(mem@, s),
        terminated(mem@, set),
        set_len == set_of(mem@, set).len(),
        1 <= set_len <= 4,
    ensures
        r == stop_of(mem@, s, set_of(mem@, set), stop_in_set),
{
    proof {
        lemma_set_of(mem@, set);
        assert(block(mem@, set as int, set_len as int) =~= set_of(mem@, set));
    }
    let set4: [u8; 4] = set4_at(mem, set, set_len);
    proof {
        assert(!set4@.contains(0));
        lemma_stop_of_same(mem@, s, set4@, set_of(mem@, set), stop_in_set);
        assert(!!stop_in_set == stop_in_set);
    }
    scan_c_string_for_set4(mem, s, set4, !stop_in_set)
}

fn large_span(mem: &Memory, s: usize, set: usize, set_len: usize, stop_in_set: bool) -> (r: usize)
    requires
        terminated(mem@, s),
        terminated(mem@, set),
        set_len == set_of(mem@, set).len(),
    ensures
        r == stop_of(mem@, s, set_of(mem@, set), stop_in_set),
{
    let ghost m = mem@;
    let ghost members = set_of(m, set);
    proof {
        lemma_set_of(m, set);
        assert(block(m, set as int, set_len as int) =~= members);
        lemma_stop_of(m, s, members, stop_in_set);
    }
    if set_len > 4 && all_bytes_ascii(mem, set, set_len) {
        let (lo, hi) = build_pshufb_lut(mem, set, set_len);
        let i: usize = scan_c_string_pshufb(mem, s, &lo, &hi, stop_in_set);
        proof {
            assert(lut_has(lo@, hi@, m[s + i]) == members.contains(m[s + i]));
            assert forall|j: int| s <= j < s + i implies #[trigger] m[j] != 0 && members.contains(
                m[j],
            ) != stop_in_set by {
                assert(lut_has(lo@, hi@, m[j]) == members.contains(m[j]));
            }
            lemma_stop_of_is(m, s, members, stop_in_set, i as int);
        }
        return i;
    }
    let size: usize = mem.size();
    let (s_len, _ended) = scan_c_string(mem, s, None);
    proof {
        lemma_c_len(m, s as int, None);
        lemma_find(m, s as int, s_len + 1, is_stop(members, stop_in_set));
        let p = is_stop(members, stop_in_set);
        let i = find(m, s as int, s_len + 1, p);
        assert(p(m[s + s_len]));
        if i == s_len + 1 {
            assert(!p(m[s + s_len]));
        }
        assert forall|j: int| s <= j < s + i implies #[trigger] m[j] != 0 && members.contains(m[j])
            != stop_in_set by {
            assert(!p(m[j]));
        }
        lemma_stop_of_is(m, s, members, stop_in_set, i);
    }
    span_core(mem, s, s_len + 1, set, set_len, stop_in_set)
}

/// Where a span ends, as the probe and the scan agree on it: the first byte that
/// is a NUL, or is in the set, or is not in it.
pub proof fn law_span_ends_at_the_first_stop(
    m: Seq<u8>,
    s: usize,
    set: Seq<u8>,
    stop_in_set: bool,
    i: int,
)
    requires
        0 <= i,
        s + i < m.len(),
        forall|j: int|
            s <= j < s + i ==> #[trigger] m[j] != 0 && set.contains(m[j]) != stop_in_set,
        m[s + i] == 0 || set.contains(m[s + i]) == stop_in_set,
    ensures
        stop_of(m, s, set, stop_in_set) == i,
{
    let p = is_stop(set, stop_in_set);
    assert forall|j: int| s <= j < s + i implies !p(#[trigger] m[j]) by {
        assert(m[j] != 0);
    }
    assert(is_first(m, s as int, m.len() - s, p, i));
    lemma_find_is(m, s as int, m.len() - s, p, i);
}

/// The probe of a span is right where it answers: a stop is the end of the span,
/// and all bytes before the place to resume at belong to it. It answers only for
/// sets of 5 to 64 bytes, and it resumes after at most 128 bytes.
pub proof fn law_probe_is_right(m: Seq<u8>, s: usize, set: usize, stop_in_set: bool)
    requires
        terminated(m, s),
    ensures
        match probe_result(m, s, set, stop_in_set) {
            SpanProbe::Stop(i) => i == stop_of(m, s, set_of(m, set), stop_in_set) && 5 <= set_of(
                m,
                set,
            ).len() <= 64,
            SpanProbe::Resume { consumed, set_len, all_ascii } => {
                &&& consumed <= stop_of(m, s, set_of(m, set), stop_in_set)
                &&& consumed <= 128
                &&& set_len == set_of(m, set).len()
                &&& 5 <= set_len <= 64
                &&& all_ascii <==> forall|b: u8| #[trigger]
                    set_of(m, set).contains(b) ==> b < 128
            },
            SpanProbe::Decline { known_len } => known_len is Some ==> known_len->Some_0 == set_of(
                m,
                set,
            ).len() && known_len->Some_0 < 5,
        },
{
    let members = set_of(m, set);
    lemma_probe_limit_small(s, 0);
    lemma_find(m, s as int, m.len() - s, is_stop(members, stop_in_set));
    if ascii_set(members) {
        assert forall|b: u8| #[trigger] members.contains(b) implies b < 128 by {
            let i = choose|i: int| 0 <= i < members.len() && members[i] == b;
            assert(members[i] < 0x80);
        }
    } else if forall|b: u8| #[trigger] members.contains(b) ==> b < 128 {
        assert forall|i: int| 0 <= i < members.len() implies #[trigger] members[i] < 0x80 by {
            assert(members.contains(members[i]));
        }
    }
}

/// A probe stops in front of a block of sixteen bytes that crosses into the next
/// page, and looks at whole blocks of sixteen up to 128 bytes.
proof fn lemma_probe_limit_small(s: usize, base: int)
    requires
        0 <= base <= 128,
        base % 16 == 0,
    ensures
        base <= probe_limit(s, base) <= 128,
        probe_limit(s, base) % 16 == 0,
    decreases 144 - base,
{
    if base < 128 && !page_tail(s + base) {
        lemma_probe_limit_small(s, base + 16);
    }
}

/// The blocks that a probe reads lie each within one page, and it goes on as long
/// as they do.
pub proof fn law_probe_stays_on_the_page(s: usize, base: int, k: int)
    requires
        0 <= base <= 128,
        base % 16 == 0,
    ensures
        base <= k < probe_limit(s, base) && k % 16 == 0 ==> (s + k) / 4096 == (s + k + 15) / 4096,
        probe_limit(s, base) < 128 ==> (s + probe_limit(s, base)) / 4096 != (s + probe_limit(
            s,
            base,
        ) + 15) / 4096,
    decreases 144 - base,
{
    if base < 128 && !page_tail(s + base) {
        law_probe_stays_on_the_page(s, base + 16, k);
        lemma_probe_limit_small(s, base + 16);
    }
}

} // verus!
