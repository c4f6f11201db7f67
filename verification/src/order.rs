//! The order of strings and of blocks of bytes.
use vstd::prelude::*;
use crate::memory::{block, lane, wide_read_within_page, Memory};
use crate::scan::{c_bytes, c_len, extent, has_nul, lemma_c_len, readable};
use crate::swar::{ascii_lower, lower, swar_ascii_lower, swar_word_has_zero};

verus! {

/// An address as an integer.
pub open spec fn at(a: usize) -> int {
    a as int
}

/// A length as a size.
pub open spec fn size_of(i: int) -> usize {
    i as usize
}

/// The smaller of two bounds.
pub open spec fn min_bound(a: Option<usize>, b: Option<usize>) -> Option<usize> {
    match (a, b) {
        (Some(x), Some(y)) => if x < y {
            Some(x)
        } else {
            Some(y)
        },
        (Some(x), None) => Some(x),
        (None, _) => b,
    }
}

/// The smaller of two bounds.
pub(crate) fn smaller_bound(a: Option<usize>, b: Option<usize>) -> (r: Option<usize>)
    ensures
        r == min_bound(a, b),
{
    match (a, b) {
        (Some(x), Some(y)) => if x < y {
            Some(x)
        } else {
            Some(y)
        },
        (Some(x), None) => Some(x),
        (None, _) => b,
    }
}

/// Byte `i` of a string, which goes on with NUL bytes behind its end.
pub open spec fn at_or_nul(x: Seq<u8>, i: int) -> u8 {
    if 0 <= i < x.len() {
        x[i]
    } else {
        0
    }
}

/// A byte as a comparison sees it.
pub open spec fn seen(b: u8, fold: bool) -> u8 {
    if fold {
        lower(b)
    } else {
        b
    }
}

/// The two strings part at `i`: their bytes differ, or the first one ends.
pub open spec fn part_at(x: Seq<u8>, y: Seq<u8>, fold: bool, i: int) -> bool {
    seen(at_or_nul(x, i), fold) != seen(at_or_nul(y, i), fold) || at_or_nul(x, i) == 0
}

/// The first place from `i` on at which the two strings part.
pub open spec fn parting_from(x: Seq<u8>, y: Seq<u8>, fold: bool, i: int) -> int
    decreases x.len() - i,
{
    if i >= x.len() || part_at(x, y, fold, i) {
        i
    } else {
        parting_from(x, y, fold, i + 1)
    }
}

/// The first place at which the two strings part.
pub open spec fn parting(x: Seq<u8>, y: Seq<u8>, fold: bool) -> int {
    parting_from(x, y, fold, 0)
}

/// The order of two strings: the difference of the bytes at which they part.
pub open spec fn order(x: Seq<u8>, y: Seq<u8>, fold: bool) -> int {
    let p = parting(x, y, fold);
    seen(at_or_nul(x, p), fold) - seen(at_or_nul(y, p), fold)
}

proof fn lemma_parting_from(x: Seq<u8>, y: Seq<u8>, fold: bool, i: int)
    requires
        0 <= i <= x.len(),
    ensures
        i <= parting_from(x, y, fold, i) <= x.len(),
        part_at(x, y, fold, parting_from(x, y, fold, i)),
        forall|j: int| i <= j < parting_from(x, y, fold, i) ==> !#[trigger] part_at(x, y, fold, j),
    decreases x.len() - i,
{
    if !(i >= x.len() || part_at(x, y, fold, i)) {
        lemma_parting_from(x, y, fold, i + 1);
    }
}

/// What [`parting`] returns, without recursion.
pub proof fn lemma_parting(x: Seq<u8>, y: Seq<u8>, fold: bool)
    ensures
        0 <= parting(x, y, fold) <= x.len(),
        part_at(x, y, fold, parting(x, y, fold)),
        forall|j: int| 0 <= j < parting(x, y, fold) ==> !#[trigger] part_at(x, y, fold, j),
{
    lemma_parting_from(x, y, fold, 0);
}

/// The first place at which the strings part is the one that [`parting`] gives.
pub proof fn lemma_parting_is(x: Seq<u8>, y: Seq<u8>, fold: bool, i: int)
    requires
        0 <= i,
        part_at(x, y, fold, i),
        forall|j: int| 0 <= j < i ==> !#[trigger] part_at(x, y, fold, j),
    ensures
        parting(x, y, fold) == i,
{
    lemma_parting(x, y, fold);
    let p = parting(x, y, fold);
    if p < i {
        assert(!part_at(x, y, fold, p));
    } else if i < p {
        assert(!part_at(x, y, fold, i));
    }
}

/// A string in memory, read at an offset that it reaches.
proof fn lemma_string_byte(m: Seq<u8>, a: int, bound: Option<usize>, i: int)
    requires
        readable(m, a, bound),
        0 <= i < extent(m, a, bound),
        forall|j: int| a <= j < a + i ==> #[trigger] m[j] != 0,
    ensures
        at_or_nul(c_bytes(m, a, bound), i) == m[a + i],
{
    lemma_c_len(m, a, bound);
    let n = c_len(m, a, bound);
    if n < i {
        assert(m[a + n] != 0);
    } else if n == i {
        assert(m[a + n] == 0);
    }
}

/// Two strings that agree on `i` bytes and part there.
proof fn lemma_parted(m: Seq<u8>, a: int, b: int, bound: Option<usize>, fold: bool, i: int)
    requires
        readable(m, a, bound),
        readable(m, b, bound),
        0 <= i,
        i <= extent(m, a, bound),
        i <= extent(m, b, bound),
        forall|j: int| a <= j < a + i ==> #[trigger] m[j] != 0,
        forall|k: int| 0 <= k < i ==> seen(#[trigger] m[a + k], fold) == seen(m[b + k], fold),
        if bound is Some && i == bound->Some_0 {
            true
        } else {
            i < extent(m, a, bound) && i < extent(m, b, bound) && (m[a + i] == 0 || seen(
                m[a + i],
                fold,
            ) != seen(m[b + i], fold))
        },
    ensures
        ({
            let x = c_bytes(m, a, bound);
            let y = c_bytes(m, b, bound);
            &&& parting(x, y, fold) == i
            &&& bound is Some && i == bound->Some_0 ==> order(x, y, fold) == 0
            &&& !(bound is Some && i == bound->Some_0) ==> order(x, y, fold) == seen(
                m[a + i],
                fold,
            ) - seen(m[b + i], fold)
        }),
{
    let x = c_bytes(m, a, bound);
    let y = c_bytes(m, b, bound);
    lemma_c_len(m, a, bound);
    lemma_c_len(m, b, bound);
    assert forall|j: int| b <= j < b + i implies #[trigger] m[j] != 0 by {
        let k = j - b;
        assert(m[a + k] != 0);
        assert(seen(m[a + k], fold) == seen(m[b + k], fold));
    }
    assert forall|k: int| 0 <= k < i implies !#[trigger] part_at(x, y, fold, k) by {
        lemma_string_byte(m, a, bound, k);
        lemma_string_byte(m, b, bound, k);
        assert(seen(m[a + k], fold) == seen(m[b + k], fold));
    }
    if !(bound is Some && i == bound->Some_0) {
        lemma_string_byte(m, a, bound, i);
        lemma_string_byte(m, b, bound, i);
    }
    lemma_parting_is(x, y, fold, i);
}

/// The difference of two bytes.
pub(crate) fn byte_diff(a: u8, b: u8) -> (r: i32)
    ensures
        r == a - b,
{
    a as i32 - b as i32
}

/// A byte as a comparison sees it.
fn see(b: u8, fold: bool) -> (r: u8)
    ensures
        r == seen(b, fold),
{
    if fold {
        ascii_lower(b)
    } else {
        b
    }
}

/// Walks two strings until they part. Returns the place, whether that is the
/// bound, and the difference of the bytes there.
pub(crate) fn walk(
    mem: &Memory,
    s1: usize,
    s2: usize,
    bound: Option<usize>,
    fold: bool,
) -> (r: (usize, bool, i32))
    requires
        readable(mem@, s1 as int, bound),
        readable(mem@, s2 as int, bound),
    ensures
        ({
            let x = c_bytes(mem@, s1 as int, bound);
            let y = c_bytes(mem@, s2 as int, bound);
            &&& r.0 == parting(x, y, fold)
            &&& r.1 == (bound == Some(r.0))
            &&& r.2 == order(x, y, fold)
            &&& !r.1 ==> s1 + r.0 < mem@.len() && s2 + r.0 < mem@.len() && mem@[s1 + r.0]
                == at_or_nul(x, r.0 as int) && mem@[s2 + r.0] == at_or_nul(y, r.0 as int)
        }),
{
    let size: usize = mem.size();
    let ghost m = mem@;
    let room1: usize = size - s1;
    let room2: usize = size - s2;
    let shared: usize = if room1 < room2 {
        room1
    } else {
        room2
    };
    let limit: usize = match bound {
        Some(b) => if b < shared {
            b
        } else {
            shared
        },
        None => shared,
    };
    let mut i: usize = 0;
    while i < limit
        invariant
            m == mem@,
            size == m.len(),
            i <= limit,
            s1 + limit <= size,
            s2 + limit <= size,
            readable(m, s1 as int, bound),
            readable(m, s2 as int, bound),
            limit <= extent(m, s1 as int, bound),
            limit <= extent(m, s2 as int, bound),
            bound is Some ==> limit <= bound->Some_0,
            forall|j: int| s1 <= j < s1 + i ==> #[trigger] m[j] != 0,
            forall|k: int|
                0 <= k < i ==> seen(#[trigger] m[s1 + k], fold) == seen(m[s2 + k], fold),
        decreases limit - i,
    {
        if limit - i >= 8 && wide_read_within_page(s1 + i) && wide_read_within_page(s2 + i) {
            let w1: u64 = mem.word(s1 + i);
            let w2: u64 = mem.word(s2 + i);
            let v1: u64 = if fold {
                swar_ascii_lower(w1)
            } else {
                w1
            };
            let v2: u64 = if fold {
                swar_ascii_lower(w2)
            } else {
                w2
            };
            if v1 == v2 && !swar_word_has_zero(w1) {
                proof {
                    assert forall|j: int| s1 <= j < s1 + i + 8 implies #[trigger] m[j] != 0 by {
                        if j >= s1 + i {
                            let k = j - s1 - i;
                            assert(lane(w1, k) == m[s1 + i + k]);
                        }
                    }
                    assert forall|k: int| 0 <= k < i + 8 implies seen(#[trigger] m[s1 + k], fold)
                        == seen(m[s2 + k], fold) by {
                        if k >= i {
                            let l = k - i;
                            assert(lane(w1, l) == m[s1 + i + l]);
                            assert(lane(w2, l) == m[s2 + i + l]);
                            assert(lane(v1, l) == seen(lane(w1, l), fold));
                            assert(lane(v2, l) == seen(lane(w2, l), fold));
                        }
                    }
                }
                i += 8;
                continue;
            }
        }
        let a: u8 = mem.load(s1 + i);
        let b: u8 = mem.load(s2 + i);
        let fa: u8 = see(a, fold);
        let fb: u8 = see(b, fold);
        if fa != fb || a == 0 {
            proof {
                lemma_parted(m, s1 as int, s2 as int, bound, fold, i as int);
                assert forall|j: int| s2 <= j < s2 + i implies #[trigger] m[j] != 0 by {
                    let k = j - s2;
                    assert(m[s1 + k] != 0);
                    assert(seen(m[s1 + k], fold) == seen(m[s2 + k], fold));
                }
                lemma_string_byte(m, s1 as int, bound, i as int);
                lemma_string_byte(m, s2 as int, bound, i as int);
            }
            return (i, false, byte_diff(fa, fb));
        }
        i += 1;
    }
    proof {
        assert(bound is Some && i == bound->Some_0) by {
            if !(bound is Some && limit == bound->Some_0) {
                if limit == room1 {
                    if has_nul(m, s1 as int) {
                        let j = choose|j: int| s1 <= j < m.len() && #[trigger] m[j] == 0;
                        assert(m[j] != 0);
                    }
                } else {
                    if has_nul(m, s2 as int) {
                        let j = choose|j: int| s2 <= j < m.len() && #[trigger] m[j] == 0;
                        let k = j - s2;
                        assert(m[s1 + k] != 0);
                        assert(seen(m[s1 + k], fold) == seen(m[s2 + k], fold));
                    }
                }
            }
        }
        lemma_parted(m, s1 as int, s2 as int, bound, fold, i as int);
    }
    (limit, true, 0)
}

/// Compares two strings under bounds of their own; bytes behind a bound count as
/// NUL. Returns the order and the longer of the two lengths.
pub(crate) fn walk_apart(
    mem: &Memory,
    s1: usize,
    bound1: Option<usize>,
    s2: usize,
    bound2: Option<usize>,
    len1: usize,
    len2: usize,
) -> (r: i32)
    requires
        readable(mem@, s1 as int, bound1),
        readable(mem@, s2 as int, bound2),
        len1 == c_len(mem@, s1 as int, bound1),
        len2 == c_len(mem@, s2 as int, bound2),
    ensures
        r == order(c_bytes(mem@, s1 as int, bound1), c_bytes(mem@, s2 as int, bound2), true),
{
    let size: usize = mem.size();
    let ghost m = mem@;
    let ghost x = c_bytes(m, s1 as int, bound1);
    let ghost y = c_bytes(m, s2 as int, bound2);
    proof {
        lemma_c_len(m, s1 as int, bound1);
        lemma_c_len(m, s2 as int, bound2);
    }
    let mut i: usize = 0;
    loop
        invariant
            m == mem@,
            size == m.len(),
            x == c_bytes(m, s1 as int, bound1),
            y == c_bytes(m, s2 as int, bound2),
            x.len() == len1,
            y.len() == len2,
            s1 + len1 <= size,
            s2 + len2 <= size,
            i <= len1,
            forall|j: int| 0 <= j < i ==> !#[trigger] part_at(x, y, true, j),
        decreases len1 - i,
    {
        let a: u8 = if i < len1 {
            mem.load(s1 + i)
        } else {
            0
        };
        let b: u8 = if i < len2 {
            mem.load(s2 + i)
        } else {
            0
        };
        assert(a == at_or_nul(x, i as int));
        assert(b == at_or_nul(y, i as int));
        let fa: u8 = ascii_lower(a);
        let fb: u8 = ascii_lower(b);
        if fa != fb || a == 0 {
            proof {
                assert(part_at(x, y, true, i as int));
                lemma_parting_is(x, y, true, i as int);
            }
            return byte_diff(fa, fb);
        }
        assert(!part_at(x, y, true, i as int));
        i += 1;
    }
}

/// The order of two blocks of the same length: `0` where they are equal, else
/// the sign of the first difference.
pub open spec fn block_order(x: Seq<u8>, y: Seq<u8>) -> int
    decreases x.len(),
{
    if x.len() == 0 || y.len() == 0 {
        0
    } else if x[0] < y[0] {
        -1
    } else if x[0] > y[0] {
        1
    } else {
        block_order(x.drop_first(), y.drop_first())
    }
}

/// Blocks that first differ at `i` are ordered by the bytes there.
pub proof fn lemma_block_order(x: Seq<u8>, y: Seq<u8>, i: int)
    requires
        x.len() == y.len(),
        0 <= i <= x.len(),
        forall|j: int| 0 <= j < i ==> #[trigger] x[j] == y[j],
        i < x.len() ==> x[i] != y[i],
    ensures
        block_order(x, y) == if i == x.len() {
            0
        } else if x[i] < y[i] {
            -1
        } else {
            1
        },
    decreases x.len(),
{
    if x.len() > 0 && i > 0 {
        assert(x[0] == y[0]);
        let xs = x.drop_first();
        let ys = y.drop_first();
        assert forall|j: int| 0 <= j < i - 1 implies #[trigger] xs[j] == ys[j] by {
            assert(x[j + 1] == y[j + 1]);
        }
        lemma_block_order(xs, ys, i - 1);
    }
}

/// The first byte in which two blocks of `n` bytes differ decides their order; `0`
/// where none does.
pub(crate) fn first_difference(mem: &Memory, s1: usize, s2: usize, n: usize) -> (r: i32)
    requires
        s1 + n <= mem@.len(),
        s2 + n <= mem@.len(),
    ensures
        r == block_order(block(mem@, s1 as int, n as int), block(mem@, s2 as int, n as int)),
{
    let size: usize = mem.size();
    let ghost m = mem@;
    let ghost x = block(m, s1 as int, n as int);
    let ghost y = block(m, s2 as int, n as int);
    let mut i: usize = 0;
    while i < n
        invariant
            m == mem@,
            size == m.len(),
            i <= n,
            s1 + n <= size,
            s2 + n <= size,
            x == block(m, s1 as int, n as int),
            y == block(m, s2 as int, n as int),
            forall|j: int| 0 <= j < i ==> #[trigger] m[s1 + j] == m[s2 + j],
        decreases n - i,
    {
        if n - i >= 8 && wide_read_within_page(s1 + i) && wide_read_within_page(s2 + i) {
            let w1: u64 = mem.word(s1 + i);
            let w2: u64 = mem.word(s2 + i);
            if w1 == w2 {
                assert forall|j: int| 0 <= j < i + 8 implies #[trigger] m[s1 + j] == m[s2 + j] by {
                    if j >= i {
                        let k = j - i;
                        assert(lane(w1, k) == m[s1 + i + k]);
                        assert(lane(w2, k) == m[s2 + i + k]);
                    }
                }
                i += 8;
                continue;
            }
        }
        let a: u8 = mem.load(s1 + i);
        let b: u8 = mem.load(s2 + i);
        if a != b {
            proof {
                assert forall|j: int| 0 <= j < i implies #[trigger] x[j] == y[j] by {
                    assert(m[s1 + j] == m[s2 + j]);
                }
                lemma_block_order(x, y, i as int);
            }
            return if a < b {
                -1
            } else {
                1
            };
        }
        i += 1;
    }
    proof {
        assert forall|j: int| 0 <= j < i implies #[trigger] x[j] == y[j] by {
            assert(m[s1 + j] == m[s2 + j]);
        }
        lemma_block_order(x, y, i as int);
    }
    0
}

/// Two strings without NUL bytes compare as equal exactly where they are equal.
pub proof fn law_order_is_zero_on_equals(x: Seq<u8>, y: Seq<u8>)
    requires
        !x.contains(0),
        !y.contains(0),
    ensures
        order(x, y, false) == 0 <==> x == y,
{
    lemma_parting(x, y, false);
    let p = parting(x, y, false);
    if order(x, y, false) == 0 {
        assert(part_at(x, y, false, p));
        assert(at_or_nul(x, p) == 0);
        if p < x.len() {
            assert(x.contains(x[p]));
        }
        if p < y.len() {
            assert(y.contains(y[p]));
        }
        assert forall|i: int| 0 <= i < p implies #[trigger] x[i] == y[i] by {
            assert(!part_at(x, y, false, i));
            if i >= y.len() {
                assert(x.contains(x[i]));
            }
        }
        if y.len() < p {
            assert(!part_at(x, y, false, y.len() as int));
            assert(x[y.len() as int] == 0);
        }
        assert(x =~= y);
    }
    if x == y {
        assert(seen(at_or_nul(x, p), false) == seen(at_or_nul(y, p), false));
    }
}

/// Comparing in the other direction gives the opposite order.
pub proof fn law_order_is_antisymmetric(x: Seq<u8>, y: Seq<u8>, fold: bool)
    ensures
        order(x, y, fold) == -order(y, x, fold),
{
    lemma_parting(x, y, fold);
    let p = parting(x, y, fold);
    assert forall|j: int| 0 <= j < p implies !#[trigger] part_at(y, x, fold, j) by {
        assert(!part_at(x, y, fold, j));
    }
    assert(part_at(x, y, fold, p));
    assert(part_at(y, x, fold, p));
    lemma_parting_is(y, x, fold, p);
}

/// Comparing blocks in the other direction gives the opposite order.
pub proof fn law_block_order_is_antisymmetric(x: Seq<u8>, y: Seq<u8>)
    requires
        x.len() == y.len(),
    ensures
        block_order(x, y) == -block_order(y, x),
    decreases x.len(),
{
    if x.len() > 0 {
        law_block_order_is_antisymmetric(x.drop_first(), y.drop_first());
    }
}

/// Blocks compare as equal exactly where they are equal.
pub proof fn law_block_order_is_zero_on_equals(x: Seq<u8>, y: Seq<u8>)
    requires
        x.len() == y.len(),
    ensures
        block_order(x, y) == 0 <==> x == y,
    decreases x.len(),
{
    if x.len() > 0 {
        let xs = x.drop_first();
        let ys = y.drop_first();
        law_block_order_is_zero_on_equals(xs, ys);
        if block_order(x, y) == 0 {
            assert forall|i: int| 0 <= i < x.len() implies x[i] == y[i] by {
                if i > 0 {
                    assert(xs[i - 1] == ys[i - 1]);
                }
            }
            assert(x =~= y);
        }
    } else {
        assert(x =~= y);
    }
}

/// The order of strings is transitive.
pub proof fn law_order_is_transitive(x: Seq<u8>, y: Seq<u8>, z: Seq<u8>, fold: bool)
    requires
        order(x, y, fold) < 0,
        order(y, z, fold) < 0,
    ensures
        order(x, z, fold) < 0,
{
    lemma_parting(x, y, fold);
    lemma_parting(y, z, fold);
    let p = parting(x, y, fold);
    let q = parting(y, z, fold);
    let r = if p < q {
        p
    } else {
        q
    };
    assert(part_at(x, y, fold, p));
    assert(part_at(y, z, fold, q));
    assert forall|j: int| 0 <= j < r implies !#[trigger] part_at(x, z, fold, j) by {
        assert(!part_at(x, y, fold, j));
        assert(!part_at(y, z, fold, j));
    }
    if p < q {
        assert(!part_at(y, z, fold, p));
    } else if q < p {
        assert(!part_at(x, y, fold, q));
    }
    assert(part_at(x, z, fold, r));
    lemma_parting_is(x, z, fold, r);
}

/// Two strings that agree up to `i`.
proof fn lemma_agree_up_to(x: Seq<u8>, y: Seq<u8>, fold: bool, k: int, i: int)
    requires
        0 <= k <= i <= x.len(),
        forall|j: int| k <= j < i ==> !#[trigger] part_at(x, y, fold, j),
    ensures
        parting_from(x, y, fold, k) == parting_from(x, y, fold, i),
    decreases i - k,
{
    if k < i {
        assert(!part_at(x, y, fold, k));
        lemma_agree_up_to(x, y, fold, k + 1, i);
    }
}

/// The first byte in which two strings differ decides their order, by the
/// difference of the two bytes; the end of a string counts as a NUL.
pub proof fn law_first_difference_decides(x: Seq<u8>, y: Seq<u8>, i: int)
    requires
        0 <= i <= x.len(),
        i <= y.len(),
        forall|j: int| 0 <= j < i ==> #[trigger] x[j] == y[j] && x[j] != 0,
        i == x.len() || i == y.len() || x[i] != y[i],
    ensures
        order(x, y, false) == (if i < x.len() {
            x[i] as int
        } else {
            0
        }) - (if i < y.len() {
            y[i] as int
        } else {
            0
        }),
{
    assert forall|j: int| 0 <= j < i implies !#[trigger] part_at(x, y, false, j) by {
        assert(x[j] == y[j]);
    }
    lemma_agree_up_to(x, y, false, 0, i);
    if i < x.len() && x[i] == 0 && i == y.len() {
        assert(part_at(x, y, false, i));
    }
}

/// Without regard to case, strings compare as their small-letter forms.
pub proof fn law_fold_compares_small_letters(x: Seq<u8>, y: Seq<u8>)
    requires
        !x.contains(0),
        !y.contains(0),
    ensures
        order(x, y, true) == order(
            Seq::new(x.len(), |i: int| lower(x[i])),
            Seq::new(y.len(), |i: int| lower(y[i])),
            false,
        ),
{
    lemma_fold_from(x, y, 0);
}

proof fn lemma_fold_from(x: Seq<u8>, y: Seq<u8>, k: int)
    requires
        0 <= k <= x.len(),
        !x.contains(0),
        !y.contains(0),
    ensures
        ({
            let u = Seq::new(x.len(), |i: int| lower(x[i]));
            let v = Seq::new(y.len(), |i: int| lower(y[i]));
            &&& parting_from(x, y, true, k) == parting_from(u, v, false, k)
            &&& k <= parting_from(x, y, true, k) <= x.len()
        }),
    decreases x.len() - k,
{
    if k < x.len() {
        assert(x.contains(x[k]));
        lemma_fold_from(x, y, k + 1);
    }
}

/// Blocks go by the first byte that differs: -1 where it is smaller in the first,
/// 1 where it is greater, and 0 where no byte that both have differs.
pub proof fn law_block_order_goes_by_the_first_difference(x: Seq<u8>, y: Seq<u8>, i: int)
    requires
        0 <= i <= x.len(),
        i <= y.len(),
        forall|j: int| 0 <= j < i ==> #[trigger] x[j] == y[j],
    ensures
        i < x.len() && i < y.len() && x[i] < y[i] ==> block_order(x, y) == -1,
        i < x.len() && i < y.len() && x[i] > y[i] ==> block_order(x, y) == 1,
        i == x.len() || i == y.len() ==> block_order(x, y) == 0,
    decreases i,
{
    if i > 0 {
        assert(x[0] == y[0]);
        assert forall|j: int| 0 <= j < i - 1 implies #[trigger] x.drop_first()[j]
            == y.drop_first()[j] by {
            assert(x[j + 1] == y[j + 1]);
        }
        law_block_order_goes_by_the_first_difference(x.drop_first(), y.drop_first(), i - 1);
    }
}

/// Of two bounds the smaller one holds, and no bound is weaker than any.
pub proof fn law_smaller_bound_holds(a: Option<usize>, b: Option<usize>, n: usize)
    ensures
        (min_bound(a, b) is Some ==> n <= min_bound(a, b)->Some_0) <==> (a is Some ==> n
            <= a->Some_0) && (b is Some ==> n <= b->Some_0),
        min_bound(a, b) is None <==> a is None && b is None,
        min_bound(a, b) == a || min_bound(a, b) == b,
{
}

} // verus!
