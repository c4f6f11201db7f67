//! Scans over NUL-terminated strings.
//!
//! A scan starts at an address and stops at the first byte that meets a
//! condition, or at the bound where one is known. Whole words are read only
//! inside a page that is known to be mapped.
use vstd::prelude::*;
use crate::memory::{block, lane, wide_read_within_page, Memory, Ptr, SCAN_PAGE};
use crate::swar::{swar_splat, swar_word_has_zero, swar_word_has_zero_or};

verus! {

/// The offset from `a` of the first of `n` bytes that meets `p`, or `n`.
pub open spec fn find(m: Seq<u8>, a: int, n: int, p: spec_fn(u8) -> bool) -> int
    decreases n,
{
    if n <= 0 {
        0
    } else if p(m[a]) {
        0
    } else {
        1 + find(m, a + 1, n - 1, p)
    }
}

/// `i` is the offset from `a` of the first of `n` bytes that meets `p`, or is
/// `n` where none does.
pub open spec fn is_first(m: Seq<u8>, a: int, n: int, p: spec_fn(u8) -> bool, i: int) -> bool {
    &&& 0 <= i <= n
    &&& forall|j: int| a <= j < a + i ==> !p(#[trigger] m[j])
    &&& i < n ==> p(m[a + i])
}

/// What [`find`] returns, without recursion.
pub proof fn lemma_find(m: Seq<u8>, a: int, n: int, p: spec_fn(u8) -> bool)
    requires
        n >= 0,
    ensures
        is_first(m, a, n, p, find(m, a, n, p)),
    decreases n,
{
    if n > 0 && !p(m[a]) {
        lemma_find(m, a + 1, n - 1, p);
    }
}

/// A first offset is the one that [`find`] returns.
pub proof fn lemma_find_is(m: Seq<u8>, a: int, n: int, p: spec_fn(u8) -> bool, i: int)
    requires
        is_first(m, a, n, p, i),
    ensures
        find(m, a, n, p) == i,
{
    lemma_find(m, a, n, p);
    let f = find(m, a, n, p);
    if f < i {
        assert(!p(m[a + f]));
    } else if i < f {
        assert(!p(m[a + i]));
    }
}

/// The byte that ends a string.
pub open spec fn is_nul() -> spec_fn(u8) -> bool {
    |b: u8| b == 0
}

/// `c`, or the byte that ends a string.
pub open spec fn is_byte_or_nul(c: u8) -> spec_fn(u8) -> bool {
    |b: u8| b == c || b == 0
}

/// Any byte but `c`.
pub open spec fn is_not_byte(c: u8) -> spec_fn(u8) -> bool {
    |b: u8| b != c
}

/// The end of a string, or a byte whose membership in `set` is `stop_in_set`.
pub open spec fn is_stop(set: Seq<u8>, stop_in_set: bool) -> spec_fn(u8) -> bool {
    |b: u8| b == 0 || set.contains(b) == stop_in_set
}

/// A NUL byte lies at `a` or behind it.
pub open spec fn has_nul(m: Seq<u8>, a: int) -> bool {
    exists|j: int| a <= j < m.len() && #[trigger] m[j] == 0
}

/// How many bytes from `a` on a scan under `bound` may look at.
pub open spec fn extent(m: Seq<u8>, a: int, bound: Option<usize>) -> int {
    match bound {
        Some(b) => if b < m.len() - a {
            b as int
        } else {
            m.len() - a
        },
        None => m.len() - a,
    }
}

/// A scan from `a` under `bound` meets a NUL or the bound inside the space.
pub open spec fn readable(m: Seq<u8>, a: int, bound: Option<usize>) -> bool {
    &&& 0 <= a <= m.len()
    &&& has_nul(m, a) || (bound is Some && a + bound->Some_0 <= m.len())
}

/// The bytes before the NUL of the string at `a`, or before the bound.
pub open spec fn c_len(m: Seq<u8>, a: int, bound: Option<usize>) -> int {
    find(m, a, extent(m, a, bound), is_nul())
}

/// The string at `a` has its NUL before the bound.
pub open spec fn c_ended(m: Seq<u8>, a: int, bound: Option<usize>) -> bool {
    c_len(m, a, bound) < extent(m, a, bound)
}

/// The bytes of the string at `a`, without its NUL.
pub open spec fn c_bytes(m: Seq<u8>, a: int, bound: Option<usize>) -> Seq<u8> {
    block(m, a, c_len(m, a, bound))
}

/// The bytes that a scan looks at: the string with its NUL, or what the bound
/// leaves of it.
pub open spec fn region(m: Seq<u8>, a: int, bound: Option<usize>) -> int {
    c_len(m, a, bound) + if c_ended(m, a, bound) {
        1int
    } else {
        0
    }
}

/// Facts of [`c_len`] on readable strings.
pub proof fn lemma_c_len(m: Seq<u8>, a: int, bound: Option<usize>)
    requires
        readable(m, a, bound),
    ensures
        0 <= c_len(m, a, bound) <= extent(m, a, bound),
        a + c_len(m, a, bound) <= m.len(),
        bound is Some ==> c_len(m, a, bound) <= bound->Some_0,
        forall|j: int| a <= j < a + c_len(m, a, bound) ==> #[trigger] m[j] != 0,
        c_ended(m, a, bound) ==> a + c_len(m, a, bound) < m.len() && m[a + c_len(m, a, bound)] == 0,
        !c_ended(m, a, bound) ==> bound is Some && c_len(m, a, bound) == bound->Some_0,
        bound is None ==> c_ended(m, a, bound),
        c_ended(m, a, bound) ==> c_len(m, a, bound) == c_len(m, a, None),
{
    let n = extent(m, a, bound);
    lemma_find(m, a, n, is_nul());
    let i = c_len(m, a, bound);
    assert forall|j: int| a <= j < a + i implies #[trigger] m[j] != 0 by {
        assert(!is_nul()(m[j]));
    }
    if has_nul(m, a) && i == n && n == m.len() - a {
        let j = choose|j: int| a <= j < m.len() && #[trigger] m[j] == 0;
        assert(m[j] != 0);
    }
    if i < n {
        assert(is_first(m, a, m.len() - a, is_nul(), i));
        lemma_find_is(m, a, m.len() - a, is_nul(), i);
    }
}

/// A known first NUL under a bound gives [`c_len`].
pub proof fn lemma_c_len_is(m: Seq<u8>, a: int, bound: Option<usize>, i: int)
    requires
        0 <= a,
        0 <= i <= extent(m, a, bound),
        forall|j: int| a <= j < a + i ==> #[trigger] m[j] != 0,
        i < extent(m, a, bound) ==> m[a + i] == 0,
    ensures
        c_len(m, a, bound) == i,
{
    assert(is_first(m, a, extent(m, a, bound), is_nul(), i));
    lemma_find_is(m, a, extent(m, a, bound), is_nul(), i);
}

/// The last of `n` bytes from `a` on that is `c`, as an offset.
pub open spec fn last_at(m: Seq<u8>, a: int, n: int, c: u8) -> Option<int>
    decreases n,
{
    if n <= 0 {
        None
    } else if m[a + n - 1] == c {
        Some(n - 1)
    } else {
        last_at(m, a, n - 1, c)
    }
}

/// What [`last_at`] returns, without recursion.
pub proof fn lemma_last_at(m: Seq<u8>, a: int, n: int, c: u8)
    requires
        n >= 0,
    ensures
        match last_at(m, a, n, c) {
            Some(i) => 0 <= i < n && m[a + i] == c && forall|j: int|
                a + i < j < a + n ==> #[trigger] m[j] != c,
            None => forall|j: int| a <= j < a + n ==> #[trigger] m[j] != c,
        },
    decreases n,
{
    if n > 0 && m[a + n - 1] != c {
        lemma_last_at(m, a, n - 1, c);
    }
}

/// The offset of a byte that is `c` and has none behind it is the last one.
pub proof fn lemma_last_at_is(m: Seq<u8>, a: int, n: int, c: u8, r: Option<int>)
    requires
        n >= 0,
        match r {
            Some(i) => 0 <= i < n && m[a + i] == c && forall|j: int|
                a + i < j < a + n ==> #[trigger] m[j] != c,
            None => forall|j: int| a <= j < a + n ==> #[trigger] m[j] != c,
        },
    ensures
        last_at(m, a, n, c) == r,
{
    lemma_last_at(m, a, n, c);
    match (last_at(m, a, n, c), r) {
        (Some(i), Some(k)) => {
            if i < k {
                assert(m[a + k] != c);
            } else if k < i {
                assert(m[a + i] != c);
            }
        },
        (Some(i), None) => {
            assert(m[a + i] != c);
        },
        (None, Some(k)) => {
            assert(m[a + k] != c);
        },
        (None, None) => {},
    }
}

/// Whether a scan from `ptr` under `bound` meets a NUL or the bound inside the
/// space.
pub fn is_readable(mem: &Memory, ptr: usize, bound: Option<usize>) -> (r: bool)
    ensures
        r == readable(mem@, ptr as int, bound),
{
    let size: usize = mem.size();
    if ptr > size {
        return false;
    }
    match bound {
        Some(b) => {
            if b <= size - ptr {
                return true;
            }
        },
        None => {},
    }
    let mut i: usize = ptr;
    while i < size
        invariant
            size == mem@.len(),
            ptr <= i <= size,
            forall|j: int| ptr <= j < i ==> #[trigger] mem@[j] != 0,
        decreases size - i,
    {
        if mem.load(i) == 0 {
            assert(mem@[i as int] == 0);
            return true;
        }
        i += 1;
    }
    false
}

/// Length of the string at `ptr` and whether its NUL was met before `bound`.
pub fn scan_c_string(mem: &Memory, ptr: usize, bound: Option<usize>) -> (r: (usize, bool))
    requires
        readable(mem@, ptr as int, bound),
    ensures
        r.0 == c_len(mem@, ptr as int, bound),
        r.1 == c_ended(mem@, ptr as int, bound),
{
    let size: usize = mem.size();
    let limit: usize = match bound {
        Some(b) => if b < size - ptr {
            b
        } else {
            size - ptr
        },
        None => size - ptr,
    };
    let ghost m = mem@;
    let mut i: usize = 0;
    while i < limit
        invariant
            m == mem@,
            size == m.len(),
            ptr <= size,
            i <= limit,
            limit == extent(m, ptr as int, bound),
            forall|j: int| ptr <= j < ptr + i ==> #[trigger] m[j] != 0,
        decreases limit - i,
    {
        let at: usize = ptr + i;
        if limit - i >= 8 && wide_read_within_page(at) {
            let w: u64 = mem.word(at);
            if !swar_word_has_zero(w) {
                assert forall|j: int| ptr <= j < ptr + i + 8 implies #[trigger] m[j] != 0 by {
                    if j >= ptr + i {
                        assert(lane(w, j - at) == m[at + (j - at)]);
                    }
                }
                i += 8;
                continue;
            }
        }
        if mem.load(at) == 0 {
            proof {
                lemma_c_len_is(m, ptr as int, bound, i as int);
            }
            return (i, true);
        }
        i += 1;
    }
    proof {
        lemma_c_len_is(m, ptr as int, bound, i as int);
    }
    (limit, false)
}

/// As [`scan_c_string`] under a bound that is only a ceiling: no page behind the
/// NUL is touched, so the bound may reach past the mapped bytes.
pub fn scan_c_string_nul_or_bound(mem: &Memory, ptr: usize, bound: usize) -> (r: (usize, bool))
    requires
        readable(mem@, ptr as int, Some(bound)),
    ensures
        r.0 == c_len(mem@, ptr as int, Some(bound)),
        r.1 == c_ended(mem@, ptr as int, Some(bound)),
{
    let ghost m = mem@;
    let size: usize = mem.size();
    let mut done: usize = 0;
    while done < bound
        invariant
            m == mem@,
            size == m.len(),
            size % SCAN_PAGE == 0,
            readable(m, ptr as int, Some(bound)),
            done <= bound,
            ptr + done <= size,
            forall|j: int| ptr <= j < ptr + done ==> #[trigger] m[j] != 0,
        decreases bound - done,
    {
        let at: usize = ptr + done;
        proof {
            if at == size {
                assert(!has_nul(m, ptr as int)) by {
                    if has_nul(m, ptr as int) {
                        let j = choose|j: int| ptr <= j < m.len() && #[trigger] m[j] == 0;
                        assert(m[j] != 0);
                    }
                }
            }
            assert(at < size);
            lemma_page_end(at as int, size as int);
        }
        let page_left: usize = SCAN_PAGE - at % SCAN_PAGE;
        let step: usize = if page_left < bound - done {
            page_left
        } else {
            bound - done
        };
        let (i, ended) = scan_c_string(mem, at, Some(step));
        proof {
            lemma_c_len(m, at as int, Some(step));
        }
        if ended {
            proof {
                lemma_c_len_is(m, ptr as int, Some(bound), done + i);
            }
            return (done + i, true);
        }
        done += step;
    }
    proof {
        assert(ptr + bound <= size);
        lemma_c_len_is(m, ptr as int, Some(bound), bound as int);
    }
    (bound, false)
}

proof fn lemma_page_end(at: int, size: int)
    requires
        0 <= at < size,
        size % 4096 == 0,
    ensures
        at + (4096 - at % 4096) <= size,
{
    let p = at / 4096;
    let q = size / 4096;
    assert(p < q) by (nonlinear_arith)
        requires
            0 <= at < size,
            size % 4096 == 0,
            p == at / 4096,
            q == size / 4096,
    ;
}

/// The first byte of the string at `ptr` that is `target`, or its end: the
/// offset, whether the byte there is `target`, and whether the bound was met.
///
/// A `target` of `0` is found at the terminating NUL.
pub fn scan_c_string_for_byte(mem: &Memory, ptr: usize, target: u8, bound: Option<usize>) -> (r: (
    usize,
    bool,
    bool,
))
    requires
        readable(mem@, ptr as int, bound),
    ensures
        r.0 == find(mem@, ptr as int, extent(mem@, ptr as int, bound), is_byte_or_nul(target)),
        r.1 == (r.0 < extent(mem@, ptr as int, bound) && mem@[ptr + r.0] == target),
        r.2 == (r.0 == extent(mem@, ptr as int, bound)),
        r.2 ==> bound == Some(r.0),
{
    let size: usize = mem.size();
    let limit: usize = match bound {
        Some(b) => if b < size - ptr {
            b
        } else {
            size - ptr
        },
        None => size - ptr,
    };
    let ghost m = mem@;
    let ghost p = is_byte_or_nul(target);
    let splat: u64 = swar_splat(target);
    let mut i: usize = 0;
    while i < limit
        invariant
            m == mem@,
            size == m.len(),
            ptr <= size,
            i <= limit,
            limit == extent(m, ptr as int, bound),
            p == is_byte_or_nul(target),
            forall|k: int| 0 <= k < 8 ==> #[trigger] lane(splat, k) == target,
            forall|j: int| ptr <= j < ptr + i ==> !p(#[trigger] m[j]),
        decreases limit - i,
    {
        let at: usize = ptr + i;
        if limit - i >= 8 && wide_read_within_page(at) {
            let w: u64 = mem.word(at);
            if !swar_word_has_zero_or(w, splat) {
                assert forall|j: int| ptr <= j < ptr + i + 8 implies !p(#[trigger] m[j]) by {
                    if j >= ptr + i {
                        assert(lane(w, j - at) == m[at + (j - at)]);
                        assert(lane(splat, j - at) == target);
                    }
                }
                i += 8;
                continue;
            }
        }
        let b: u8 = mem.load(at);
        if b == target || b == 0 {
            proof {
                assert(is_first(m, ptr as int, limit as int, p, i as int));
                lemma_find_is(m, ptr as int, limit as int, p, i as int);
            }
            return (i, b == target, false);
        }
        i += 1;
    }
    proof {
        assert(is_first(m, ptr as int, limit as int, p, i as int));
        lemma_find_is(m, ptr as int, limit as int, p, i as int);
        if has_nul(m, ptr as int) && limit == size - ptr {
            let j = choose|j: int| ptr <= j < m.len() && #[trigger] m[j] == 0;
            assert(!p(m[j]));
        }
    }
    (limit, false, true)
}

/// The last `target` in the string at `ptr`, the NUL counted as part of it; the
/// offset at which the scan stopped; and whether it stopped at the bound.
pub fn scan_c_string_last_byte(mem: &Memory, ptr: usize, target: u8, bound: Option<usize>) -> (r: (
    Option<usize>,
    usize,
    bool,
))
    requires
        readable(mem@, ptr as int, bound),
    ensures
        r.1 == c_len(mem@, ptr as int, bound),
        r.2 == !c_ended(mem@, ptr as int, bound),
        opt_int(r.0) == last_at(
            mem@,
            ptr as int,
            c_len(mem@, ptr as int, bound) + if c_ended(mem@, ptr as int, bound) {
                1int
            } else {
                0
            },
            target,
        ),
{
    let size: usize = mem.size();
    let limit: usize = match bound {
        Some(b) => if b < size - ptr {
            b
        } else {
            size - ptr
        },
        None => size - ptr,
    };
    let ghost m = mem@;
    let splat: u64 = swar_splat(target);
    let mut i: usize = 0;
    let mut last: Option<usize> = None;
    while i < limit
        invariant
            m == mem@,
            size == m.len(),
            ptr <= size,
            i <= limit,
            limit == extent(m, ptr as int, bound),
            forall|k: int| 0 <= k < 8 ==> #[trigger] lane(splat, k) == target,
            forall|j: int| ptr <= j < ptr + i ==> #[trigger] m[j] != 0,
            match last {
                Some(k) => k < i && m[ptr + k] == target && forall|j: int|
                    ptr + k < j < ptr + i ==> #[trigger] m[j] != target,
                None => forall|j: int| ptr <= j < ptr + i ==> #[trigger] m[j] != target,
            },
        decreases limit - i,
    {
        let at: usize = ptr + i;
        if limit - i >= 8 && wide_read_within_page(at) {
            let w: u64 = mem.word(at);
            if !swar_word_has_zero_or(w, splat) {
                assert forall|j: int| at <= j < at + 8 implies (#[trigger] m[j] != 0 && m[j]
                    != target) by {
                    assert(lane(w, j - at) == m[at + (j - at)]);
                    assert(lane(splat, j - at) == target);
                }
                i += 8;
                continue;
            }
        }
        let b: u8 = mem.load(at);
        if b == target {
            last = Some(i);
        }
        if b == 0 {
            proof {
                lemma_c_len_is(m, ptr as int, bound, i as int);
                lemma_last_at_is(m, ptr as int, i + 1, target, opt_int(last));
            }
            return (last, i, false);
        }
        i += 1;
    }
    proof {
        lemma_c_len_is(m, ptr as int, bound, i as int);
        lemma_last_at_is(m, ptr as int, i as int, target, opt_int(last));
    }
    (last, limit, true)
}

/// An optional size as an optional integer.
pub open spec fn opt_int(o: Option<usize>) -> Option<int> {
    match o {
        Some(i) => Some(i as int),
        None => None,
    }
}

/// The first byte of the string at `ptr` that is not `c`, as an offset.
pub fn scan_c_string_first_not_byte(mem: &Memory, ptr: usize, c: u8) -> (r: usize)
    requires
        ptr <= mem@.len(),
        has_nul(mem@, ptr as int),
        c != 0,
    ensures
        r == find(mem@, ptr as int, mem@.len() - ptr, is_not_byte(c)),
        ptr + r < mem@.len(),
        mem@[ptr + r] != c,
{
    let size: usize = mem.size();
    let ghost m = mem@;
    let mut i: usize = 0;
    while ptr + i < size && mem.load(ptr + i) == c
        invariant
            m == mem@,
            size == m.len(),
            ptr + i <= size,
            forall|j: int| ptr <= j < ptr + i ==> #[trigger] m[j] == c,
        decreases size - i,
    {
        i += 1;
    }
    proof {
        if ptr + i == size {
            let j = choose|j: int| ptr <= j < m.len() && #[trigger] m[j] == 0;
            assert(m[j] == c);
        }
        assert(is_first(m, ptr as int, size - ptr, is_not_byte(c), i as int));
        lemma_find_is(m, ptr as int, size - ptr, is_not_byte(c), i as int);
    }
    i
}

/// The first stop of the string at `ptr` over a set of four bytes that holds no
/// NUL: the end of the string or a member, or with `complement` a byte that is
/// no member.
pub fn scan_c_string_for_set4(mem: &Memory, ptr: usize, set: [u8; 4], complement: bool) -> (r:
    usize)
    requires
        ptr <= mem@.len(),
        has_nul(mem@, ptr as int),
        !set@.contains(0),
    ensures
        r == find(mem@, ptr as int, mem@.len() - ptr, is_stop(set@, !complement)),
        ptr + r < mem@.len(),
{
    let size: usize = mem.size();
    let ghost m = mem@;
    let ghost p = is_stop(set@, !complement);
    let mut i: usize = 0;
    while ptr + i < size
        invariant
            m == mem@,
            size == m.len(),
            ptr + i <= size,
            p == is_stop(set@, !complement),
            forall|j: int| ptr <= j < ptr + i ==> !p(#[trigger] m[j]),
        ensures
            is_first(m, ptr as int, size - ptr, p, i as int),
        decreases size - i,
    {
        let b: u8 = mem.load(ptr + i);
        let member: bool = b == set[0] || b == set[1] || b == set[2] || b == set[3];
        proof {
            if member {
                assert(set@.contains(b)) by {
                    assert(set@[0] == b || set@[1] == b || set@[2] == b || set@[3] == b);
                }
            }
        }
        if b == 0 || member != complement {
            break;
        }
        i += 1;
    }
    proof {
        lemma_find_is(m, ptr as int, size - ptr, p, i as int);
        if ptr + i == size {
            let j = choose|j: int| ptr <= j < m.len() && #[trigger] m[j] == 0;
            assert(!p(m[j]));
        }
    }
    i
}

/// As [`scan_c_string`].
pub fn bench_scan_c_string(mem: &Memory, ptr: usize, bound: Option<usize>) -> (r: (usize, bool))
    requires
        readable(mem@, ptr as int, bound),
    ensures
        r.0 == c_len(mem@, ptr as int, bound),
        r.1 == c_ended(mem@, ptr as int, bound),
{
    scan_c_string(mem, ptr, bound)
}

/// As [`scan_c_string_for_byte`].
pub fn bench_scan_c_string_for_byte(
    mem: &Memory,
    ptr: usize,
    target: u8,
    bound: Option<usize>,
) -> (r: (usize, bool, bool))
    requires
        readable(mem@, ptr as int, bound),
    ensures
        r.0 == find(mem@, ptr as int, extent(mem@, ptr as int, bound), is_byte_or_nul(target)),
        r.1 == (r.0 < extent(mem@, ptr as int, bound) && mem@[ptr + r.0] == target),
        r.2 == (r.0 == extent(mem@, ptr as int, bound)),
{
    scan_c_string_for_byte(mem, ptr, target, bound)
}

/// As [`scan_c_string_last_byte`].
pub fn bench_scan_c_string_last_byte(
    mem: &Memory,
    ptr: usize,
    target: u8,
    bound: Option<usize>,
) -> (r: (Option<usize>, usize, bool))
    requires
        readable(mem@, ptr as int, bound),
    ensures
        r.1 == c_len(mem@, ptr as int, bound),
        r.2 == !c_ended(mem@, ptr as int, bound),
        opt_int(r.0) == last_at(
            mem@,
            ptr as int,
            c_len(mem@, ptr as int, bound) + if c_ended(mem@, ptr as int, bound) {
                1int
            } else {
                0
            },
            target,
        ),
{
    scan_c_string_last_byte(mem, ptr, target, bound)
}

/// The bytes of the C string at `p`: `None` for a null pointer, or where a
/// tracked allocation ends before the NUL.
pub fn read_c_string_bytes(mem: &Memory, p: Ptr) -> (r: Option<Vec<u8>>)
    requires
        !p.null() ==> readable(mem@, p.at(), p.remaining),
    ensures
        r is Some == (!p.null() && c_ended(mem@, p.at(), p.remaining)),
        r matches Some(b) ==> b@ == c_bytes(mem@, p.at(), p.remaining),
{
    if p.is_null() {
        return None;
    }
    let (n, ended) = scan_c_string(mem, p.addr, p.remaining);
    if !ended {
        return None;
    }
    proof {
        lemma_c_len(mem@, p.at(), p.remaining);
    }
    Some(mem.read(p.addr, n))
}

/// As [`read_c_string_bytes`], with the NUL.
pub fn read_c_string_bytes_with_nul(mem: &Memory, p: Ptr) -> (r: Option<Vec<u8>>)
    requires
        !p.null() ==> readable(mem@, p.at(), p.remaining),
    ensures
        r is Some == (!p.null() && c_ended(mem@, p.at(), p.remaining)),
        r matches Some(b) ==> b@ == c_bytes(mem@, p.at(), p.remaining).push(0),
{
    match read_c_string_bytes(mem, p) {
        Some(mut b) => {
            b.push(0);
            Some(b)
        },
        None => None,
    }
}

/// Where a string ends before its bound, a scan under that bound and a scan
/// without one agree.
pub proof fn law_bound_does_not_change_an_ended_string(m: Seq<u8>, a: int, bound: Option<usize>)
    requires
        readable(m, a, bound),
        c_ended(m, a, bound),
    ensures
        c_len(m, a, bound) == c_len(m, a, None),
        c_ended(m, a, None),
{
    lemma_c_len(m, a, bound);
    assert(m[a + c_len(m, a, bound)] == 0);
    lemma_c_len(m, a, None);
}

/// The length of a C string: no NUL stands before it, and there is a NUL at it
/// unless the bound or the address space ends there.
pub proof fn law_length_is_the_first_nul(m: Seq<u8>, a: int, bound: Option<usize>, n: int)
    requires
        0 <= a,
        0 <= n,
        a + n <= m.len(),
        bound is Some ==> n <= bound->Some_0,
        forall|j: int| a <= j < a + n ==> #[trigger] m[j] != 0,
    ensures
        a + n < m.len() && m[a + n] == 0 && (bound is Some ==> n < bound->Some_0) ==> c_len(
            m,
            a,
            bound,
        ) == n && c_ended(m, a, bound) && region(m, a, bound) == n + 1,
        bound == Some(n as usize) ==> c_len(m, a, bound) == n && !c_ended(m, a, bound) && region(
            m,
            a,
            bound,
        ) == n,
{
    let e = extent(m, a, bound);
    if a + n < m.len() && m[a + n] == 0 && (bound is Some ==> n < bound->Some_0) {
        assert(is_first(m, a, e, is_nul(), n));
        lemma_find_is(m, a, e, is_nul(), n);
    }
    if bound == Some(n as usize) {
        assert(is_first(m, a, e, is_nul(), n));
        lemma_find_is(m, a, e, is_nul(), n);
    }
}

/// The bytes of a C string are those of memory, in order and without a NUL.
pub proof fn law_string_bytes(m: Seq<u8>, a: int, bound: Option<usize>, i: int)
    requires
        0 <= a <= m.len(),
    ensures
        c_bytes(m, a, bound).len() == c_len(m, a, bound),
        !c_bytes(m, a, bound).contains(0),
        0 <= i < c_len(m, a, bound) ==> c_bytes(m, a, bound)[i] == m[a + i],
        bound is Some ==> c_len(m, a, bound) <= bound->Some_0,
        a + c_len(m, a, bound) <= m.len(),
{
    let e = extent(m, a, bound);
    lemma_find(m, a, e, is_nul());
    let s = c_bytes(m, a, bound);
    if s.contains(0) {
        let k = choose|k: int| 0 <= k < s.len() && s[k] == 0;
        assert(!is_nul()(m[a + k]));
    }
}

/// A stricter bound gives a front of the string.
pub proof fn law_stricter_bound_gives_a_front(m: Seq<u8>, a: int, x: usize, y: usize)
    requires
        0 <= a <= m.len(),
        x <= y,
    ensures
        c_len(m, a, Some(x)) == if c_len(m, a, Some(y)) <= x {
            c_len(m, a, Some(y))
        } else {
            x as int
        },
        c_len(m, a, Some(x)) == if c_len(m, a, None) <= x {
            c_len(m, a, None)
        } else {
            x as int
        },
{
    lemma_find(m, a, extent(m, a, Some(y)), is_nul());
    lemma_find(m, a, extent(m, a, None), is_nul());
    let n = if c_len(m, a, Some(y)) <= x {
        c_len(m, a, Some(y))
    } else {
        x as int
    };
    let k = if c_len(m, a, None) <= x {
        c_len(m, a, None)
    } else {
        x as int
    };
    assert(is_first(m, a, extent(m, a, Some(x)), is_nul(), n));
    lemma_find_is(m, a, extent(m, a, Some(x)), is_nul(), n);
    assert(is_first(m, a, extent(m, a, Some(x)), is_nul(), k));
    lemma_find_is(m, a, extent(m, a, Some(x)), is_nul(), k);
}

/// The last place of a byte: it stands there and nowhere behind.
pub proof fn law_last_place_of_a_byte(m: Seq<u8>, a: int, n: int, c: u8)
    requires
        0 <= a,
        0 <= n,
        a + n <= m.len(),
    ensures
        match last_at(m, a, n, c) {
            Some(i) => 0 <= i < n && m[a + i] == c && forall|j: int|
                a + i < j < a + n ==> #[trigger] m[j] != c,
            None => forall|j: int| a <= j < a + n ==> #[trigger] m[j] != c,
        },
    decreases n,
{
    if n > 0 && m[a + n - 1] != c {
        law_last_place_of_a_byte(m, a, n - 1, c);
    }
}

/// The place of the first byte that is sought: none before it is, and it is
/// unless the `n` bytes end there.
pub proof fn law_place_is_the_first(m: Seq<u8>, a: int, n: int, p: spec_fn(u8) -> bool)
    requires
        0 <= n,
    ensures
        0 <= find(m, a, n, p) <= n,
        forall|j: int| a <= j < a + find(m, a, n, p) ==> !p(#[trigger] m[j]),
        find(m, a, n, p) < n ==> p(m[a + find(m, a, n, p)]),
{
    lemma_find(m, a, n, p);
}

/// What ends a scan over a set: a NUL always, and else a byte of the set or a byte
/// outside of it.
pub proof fn law_what_ends_a_scan(set: Seq<u8>, b: u8, c: u8)
    ensures
        is_stop(set, true)(b) <==> b == 0 || set.contains(b),
        is_stop(set, false)(b) <==> b == 0 || !set.contains(b),
        is_byte_or_nul(c)(b) <==> b == 0 || b == c,
        is_not_byte(c)(b) <==> b != c,
        is_nul()(b) <==> b == 0,
{
}

} // verus!
