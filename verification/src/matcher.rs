//! Finding a block in another one in linear time.
//!
//! A table of borders tells, for each prefix of the needle, the longest part that
//! both starts and ends it; after a mismatch the search goes on from there and
//! never looks back in the haystack.
use vstd::prelude::*;
use crate::memory::{block, mapped, Memory};
use crate::order::seen;
use crate::scan::opt_int;
use crate::swar::{ascii_lower, lower};

verus! {

/// `n` stands in `h` at `i`, with or without regard to ASCII case.
pub open spec fn occurs_at(h: Seq<u8>, n: Seq<u8>, fold: bool, i: int) -> bool {
    &&& 0 <= i
    &&& i + n.len() <= h.len()
    &&& forall|k: int| 0 <= k < n.len() ==> seen(#[trigger] h[i + k], fold) == seen(n[k], fold)
}

/// The first place from `i` on at which `n` stands in `h`.
pub open spec fn occurrence_from(h: Seq<u8>, n: Seq<u8>, fold: bool, i: int) -> Option<int>
    decreases h.len() - i,
{
    if i + n.len() > h.len() {
        None
    } else if occurs_at(h, n, fold, i) {
        Some(i)
    } else if i >= h.len() {
        None
    } else {
        occurrence_from(h, n, fold, i + 1)
    }
}

/// The first place at which `n` stands in `h`.
pub open spec fn first_occurrence(h: Seq<u8>, n: Seq<u8>, fold: bool) -> Option<int> {
    occurrence_from(h, n, fold, 0)
}

/// `r` is the first place at which `n` stands in `h`, if any.
pub open spec fn is_occurrence(h: Seq<u8>, n: Seq<u8>, fold: bool, r: Option<int>) -> bool {
    match r {
        Some(i) => occurs_at(h, n, fold, i) && forall|j: int|
            0 <= j < i ==> !#[trigger] occurs_at(h, n, fold, j),
        None => forall|j: int| !#[trigger] occurs_at(h, n, fold, j),
    }
}

proof fn lemma_occurrence_from(h: Seq<u8>, n: Seq<u8>, fold: bool, i: int)
    requires
        0 <= i,
    ensures
        match occurrence_from(h, n, fold, i) {
            Some(k) => i <= k && occurs_at(h, n, fold, k) && forall|j: int|
                i <= j < k ==> !#[trigger] occurs_at(h, n, fold, j),
            None => forall|j: int| i <= j ==> !#[trigger] occurs_at(h, n, fold, j),
        },
    decreases h.len() - i,
{
    if i + n.len() <= h.len() && !occurs_at(h, n, fold, i) && i < h.len() {
        lemma_occurrence_from(h, n, fold, i + 1);
    }
}

/// What [`first_occurrence`] returns, without recursion.
pub proof fn lemma_first_occurrence(h: Seq<u8>, n: Seq<u8>, fold: bool)
    ensures
        is_occurrence(h, n, fold, first_occurrence(h, n, fold)),
{
    lemma_occurrence_from(h, n, fold, 0);
}

/// A first place is the one that [`first_occurrence`] gives.
pub proof fn lemma_first_occurrence_is(h: Seq<u8>, n: Seq<u8>, fold: bool, r: Option<int>)
    requires
        is_occurrence(h, n, fold, r),
    ensures
        first_occurrence(h, n, fold) == r,
{
    lemma_first_occurrence(h, n, fold);
    match (first_occurrence(h, n, fold), r) {
        (Some(a), Some(b)) => {
            if a < b {
                assert(!occurs_at(h, n, fold, a));
            } else if b < a {
                assert(!occurs_at(h, n, fold, b));
            }
        },
        (Some(a), None) => {
            assert(!occurs_at(h, n, fold, a));
        },
        (None, Some(b)) => {
            assert(!occurs_at(h, n, fold, b));
        },
        (None, None) => {},
    }
}

/// A byte as a search sees it.
pub(crate) fn fold_byte(b: u8, fold: bool) -> (r: u8)
    ensures
        r == seen(b, fold),
{
    if fold {
        ascii_lower(b)
    } else {
        b
    }
}

/// The first `k` bytes of `y` are also the last `k` of its first `q`.
pub open spec fn border(y: Seq<u8>, fold: bool, q: int, k: int) -> bool {
    &&& 0 <= k < q <= y.len()
    &&& forall|i: int| 0 <= i < k ==> seen(#[trigger] y[i], fold) == seen(y[q - k + i], fold)
}

/// `k` is the longest border of the first `q` bytes of `y`.
pub open spec fn longest_border(y: Seq<u8>, fold: bool, q: int, k: int) -> bool {
    &&& border(y, fold, q, k)
    &&& forall|l: int| k < l < q ==> !#[trigger] border(y, fold, q, l)
}

/// `table` holds the longest border of each prefix of `y` of one to `n` bytes.
pub open spec fn border_table(y: Seq<u8>, fold: bool, table: Seq<usize>, n: int) -> bool {
    &&& n < table.len()
    &&& forall|q: int| 1 <= q <= n ==> longest_border(y, fold, q, #[trigger] table[q] as int)
}

/// Of two borders the shorter one is a border of the longer one.
proof fn lemma_shorter_border(y: Seq<u8>, fold: bool, q: int, k: int, m: int)
    requires
        border(y, fold, q, k),
        border(y, fold, q, m),
        m < k,
    ensures
        border(y, fold, k, m),
{
    assert forall|i: int| 0 <= i < m implies seen(#[trigger] y[i], fold) == seen(
        y[k - m + i],
        fold,
    ) by {
        assert(seen(y[i], fold) == seen(y[q - m + i], fold));
        assert(seen(y[k - m + i], fold) == seen(y[q - k + (k - m + i)], fold));
    }
}

/// A border of a border is a border.
proof fn lemma_border_of_border(y: Seq<u8>, fold: bool, q: int, k: int, m: int)
    requires
        border(y, fold, q, k),
        border(y, fold, k, m),
    ensures
        border(y, fold, q, m),
{
    assert forall|i: int| 0 <= i < m implies seen(#[trigger] y[i], fold) == seen(
        y[q - m + i],
        fold,
    ) by {
        assert(seen(y[i], fold) == seen(y[k - m + i], fold));
        assert(seen(y[k - m + i], fold) == seen(y[q - k + (k - m + i)], fold));
    }
}

/// The longest border of each prefix of the `n` bytes at `nd`.
fn build_borders(mem: &Memory, nd: usize, n: usize, fold: bool) -> (r: Vec<usize>)
    requires
        mapped(mem@, nd as int, n as int),
        n >= 1,
    ensures
        border_table(block(mem@, nd as int, n as int), fold, r@, n as int),
{
    let size: usize = mem.size();
    let ghost m = mem@;
    let ghost y = block(m, nd as int, n as int);
    let mut table: Vec<usize> = Vec::new();
    table.push(0);
    table.push(0);
    let mut q: usize = 1;
    while q < n
        invariant
            m == mem@,
            size == m.len(),
            y == block(m, nd as int, n as int),
            nd + n <= size,
            1 <= q <= n,
            table@.len() == q + 1,
            border_table(y, fold, table@, q as int),
        decreases n - q,
    {
        let ghost before = table@;
        let b: u8 = fold_byte(mem.load(nd + q), fold);
        let mut k: usize = table[q];
        assert(longest_border(y, fold, q as int, before[q as int] as int));
        assert forall|l: int| #[trigger] border(y, fold, q + 1, l) && l >= 1 implies border(
            y,
            fold,
            q as int,
            l - 1,
        ) && seen(y[l - 1], fold) == b && l - 1 <= k by {
            assert(seen(y[l - 1], fold) == seen(y[q + 1 - l + (l - 1)], fold));
            assert forall|i: int| 0 <= i < l - 1 implies seen(#[trigger] y[i], fold) == seen(
                y[q - (l - 1) + i],
                fold,
            ) by {
                assert(seen(y[i], fold) == seen(y[q + 1 - l + i], fold));
            }
            assert(border(y, fold, q as int, l - 1));
            if l - 1 > k {
                assert(!border(y, fold, q as int, l - 1));
            }
        }
        while k > 0 && fold_byte(mem.load(nd + k), fold) != b
            invariant
                m == mem@,
                size == m.len(),
                y == block(m, nd as int, n as int),
                nd + n <= size,
                1 <= q < n,
                table@ == before,
                table@.len() == q + 1,
                border_table(y, fold, table@, q as int),
                b == seen(y[q as int], fold),
                border(y, fold, q as int, k as int),
                forall|l: int| #[trigger]
                    border(y, fold, q + 1, l) && l >= 1 ==> border(y, fold, q as int, l - 1)
                        && seen(y[l - 1], fold) == b && l - 1 <= k,
            decreases k,
        {
            let next: usize = table[k];
            proof {
                assert(longest_border(y, fold, k as int, before[k as int] as int));
                lemma_border_of_border(y, fold, q as int, k as int, next as int);
                assert forall|l: int| #[trigger]
                    border(y, fold, q + 1, l) && l >= 1 implies l - 1 <= next by {
                    if l - 1 == k {
                        assert(seen(y[l - 1], fold) == b);
                    } else {
                        lemma_shorter_border(y, fold, q as int, k as int, l - 1);
                        if l - 1 > next {
                            assert(!border(y, fold, k as int, l - 1));
                        }
                    }
                }
            }
            k = next;
        }
        let same: bool = fold_byte(mem.load(nd + k), fold) == b;
        let next: usize = if same {
            k + 1
        } else {
            0
        };
        proof {
            if same {
                assert(border(y, fold, q + 1, next as int)) by {
                    assert forall|i: int| 0 <= i < next implies seen(#[trigger] y[i], fold)
                        == seen(y[q + 1 - next + i], fold) by {
                        if i < k {
                            assert(seen(y[i], fold) == seen(y[q - k + i], fold));
                        }
                    }
                }
            } else {
                assert(k == 0);
                assert(border(y, fold, q + 1, 0));
            }
            assert forall|l: int| next < l < q + 1 implies !#[trigger] border(
                y,
                fold,
                q + 1,
                l,
            ) by {
                if border(y, fold, q + 1, l) {
                    assert(l - 1 <= k);
                    assert(seen(y[l - 1], fold) == b);
                }
            }
        }
        table.push(next);
        q += 1;
        proof {
            assert forall|p: int| 1 <= p <= q implies longest_border(
                y,
                fold,
                p,
                #[trigger] table@[p] as int,
            ) by {
                if p < q {
                    assert(table@[p] == before[p]);
                }
            }
        }
    }
    table
}

/// The first `q` bytes of the needle stand at the end of the first `i` bytes of
/// the haystack.
pub open spec fn aligned(x: Seq<u8>, y: Seq<u8>, fold: bool, i: int, q: int) -> bool {
    &&& 0 <= q <= i <= x.len()
    &&& q <= y.len()
    &&& forall|k: int| 0 <= k < q ==> seen(#[trigger] x[i - q + k], fold) == seen(y[k], fold)
}

/// After a mismatch the search may go on from the longest border: the needle
/// stands at no place in between.
proof fn lemma_fall_back(x: Seq<u8>, y: Seq<u8>, fold: bool, i: int, q: int, k: int)
    requires
        aligned(x, y, fold, i, q),
        0 < q < y.len(),
        i < x.len(),
        seen(x[i], fold) != seen(y[q], fold),
        longest_border(y, fold, q, k),
        forall|j: int| 0 <= j < i - q ==> !#[trigger] occurs_at(x, y, fold, j),
    ensures
        aligned(x, y, fold, i, k),
        forall|j: int| 0 <= j < i - k ==> !#[trigger] occurs_at(x, y, fold, j),
{
    assert forall|c: int| 0 <= c < k implies seen(#[trigger] x[i - k + c], fold) == seen(
        y[c],
        fold,
    ) by {
        assert(seen(x[i - q + (q - k + c)], fold) == seen(y[q - k + c], fold));
        assert(seen(y[c], fold) == seen(y[q - k + c], fold));
    }
    assert forall|j: int| 0 <= j < i - k implies !#[trigger] occurs_at(x, y, fold, j) by {
        if j >= i - q && occurs_at(x, y, fold, j) {
            let l = i - j;
            if l == q {
                assert(seen(x[j + q], fold) == seen(y[q], fold));
            } else {
                assert forall|c: int| 0 <= c < l implies seen(#[trigger] y[c], fold) == seen(
                    y[q - l + c],
                    fold,
                ) by {
                    assert(seen(x[j + c], fold) == seen(y[c], fold));
                    assert(seen(x[i - q + (q - l + c)], fold) == seen(y[q - l + c], fold));
                }
                assert(border(y, fold, q, l));
            }
        }
    }
}

/// The first place from `from` on at which the `nn` bytes at `nd` stand in the
/// `hn` bytes at `h`, when they stand at none before it.
pub(crate) fn search_block(
    mem: &Memory,
    h: usize,
    hn: usize,
    nd: usize,
    nn: usize,
    from: usize,
    fold: bool,
) -> (r: Option<usize>)
    requires
        mapped(mem@, h as int, hn as int),
        mapped(mem@, nd as int, nn as int),
        from <= hn,
        forall|j: int|
            0 <= j < from ==> !#[trigger] occurs_at(
                block(mem@, h as int, hn as int),
                block(mem@, nd as int, nn as int),
                fold,
                j,
            ),
    ensures
        opt_int(r) == first_occurrence(
            block(mem@, h as int, hn as int),
            block(mem@, nd as int, nn as int),
            fold,
        ),
        r matches Some(i) ==> i + nn <= hn,
{
    let size: usize = mem.size();
    let ghost m = mem@;
    let ghost x = block(m, h as int, hn as int);
    let ghost y = block(m, nd as int, nn as int);
    if nn == 0 {
        proof {
            assert(occurs_at(x, y, fold, 0));
            lemma_first_occurrence_is(x, y, fold, Some(0));
        }
        return Some(0);
    }
    if nn > hn {
        proof {
            lemma_first_occurrence_is(x, y, fold, None);
        }
        return None;
    }
    let table: Vec<usize> = build_borders(mem, nd, nn, fold);
    let mut i: usize = from;
    let mut q: usize = 0;
    while i < hn
        invariant
            m == mem@,
            size == m.len(),
            h + hn <= size,
            nd + nn <= size,
            i <= hn,
            q < nn,
            x == block(m, h as int, hn as int),
            y == block(m, nd as int, nn as int),
            border_table(y, fold, table@, nn as int),
            aligned(x, y, fold, i as int, q as int),
            forall|j: int| 0 <= j < i - q ==> !#[trigger] occurs_at(x, y, fold, j),
        decreases hn - i,
    {
        let b: u8 = fold_byte(mem.load(h + i), fold);
        while q > 0 && fold_byte(mem.load(nd + q), fold) != b
            invariant
                m == mem@,
                size == m.len(),
                h + hn <= size,
                nd + nn <= size,
                i < hn,
                q < nn,
                x == block(m, h as int, hn as int),
                y == block(m, nd as int, nn as int),
                b == seen(x[i as int], fold),
                border_table(y, fold, table@, nn as int),
                aligned(x, y, fold, i as int, q as int),
                forall|j: int| 0 <= j < i - q ==> !#[trigger] occurs_at(x, y, fold, j),
            decreases q,
        {
            let k: usize = table[q];
            proof {
                assert(longest_border(y, fold, q as int, table@[q as int] as int));
                lemma_fall_back(x, y, fold, i as int, q as int, k as int);
            }
            q = k;
        }
        if fold_byte(mem.load(nd + q), fold) == b {
            q += 1;
            i += 1;
            proof {
                assert forall|k: int| 0 <= k < q implies seen(#[trigger] x[i - q + k], fold)
                    == seen(y[k], fold) by {
                    if k < q - 1 {
                        assert(seen(x[(i - 1) - (q - 1) + k], fold) == seen(y[k], fold));
                    }
                }
                assert(aligned(x, y, fold, i as int, q as int));
            }
        } else {
            proof {
                assert(q == 0);
                assert(!occurs_at(x, y, fold, i as int)) by {
                    if occurs_at(x, y, fold, i as int) {
                        assert(seen(x[i + 0], fold) == seen(y[0], fold));
                    }
                }
            }
            i += 1;
        }
        if q == nn {
            proof {
                assert forall|k: int| 0 <= k < nn implies seen(#[trigger] x[(i - nn) + k], fold)
                    == seen(y[k], fold) by {
                    assert(seen(x[i - q + k], fold) == seen(y[k], fold));
                }
                assert(occurs_at(x, y, fold, i - nn));
                lemma_first_occurrence_is(x, y, fold, Some(i - nn));
            }
            return Some(i - nn);
        }
    }
    proof {
        assert forall|j: int| !#[trigger] occurs_at(x, y, fold, j) by {
            if occurs_at(x, y, fold, j) {
                assert(j + nn <= hn);
            }
        }
        lemma_first_occurrence_is(x, y, fold, None);
    }
    None
}

/// A string is found at its first place: the bytes there are those of the string,
/// up to case where it is folded, and at no place before. Where it is not found it
/// stands nowhere.
pub proof fn law_found_at_the_first_place(h: Seq<u8>, n: Seq<u8>, fold: bool, j: int)
    ensures
        match first_occurrence(h, n, fold) {
            Some(i) => {
                &&& 0 <= i <= h.len() - n.len()
                &&& forall|k: int|
                    0 <= k < n.len() ==> #[trigger] h[i + k] == n[k] || (fold && lower(h[i + k])
                        == lower(n[k]))
                &&& 0 <= j < i ==> exists|k: int|
                    0 <= k < n.len() && h[j + k] != #[trigger] n[k] && (!fold || lower(h[j + k])
                        != lower(n[k]))
            },
            None => 0 <= j <= h.len() - n.len() ==> exists|k: int|
                0 <= k < n.len() && h[j + k] != #[trigger] n[k] && (!fold || lower(h[j + k])
                    != lower(n[k])),
        },
{
    lemma_occurrence_places(h, n, fold, 0);
    if 0 <= j <= h.len() - n.len() && !occurs_at(h, n, fold, j) {
        lemma_no_occurrence(h, n, fold, j);
    }
}

/// Where a string does not stand, one of its bytes differs.
proof fn lemma_no_occurrence(h: Seq<u8>, n: Seq<u8>, fold: bool, j: int)
    requires
        0 <= j <= h.len() - n.len(),
        !occurs_at(h, n, fold, j),
    ensures
        exists|k: int|
            0 <= k < n.len() && h[j + k] != #[trigger] n[k] && (!fold || lower(h[j + k]) != lower(
                n[k],
            )),
{
    let k = choose|k: int|
        0 <= k < n.len() && seen(#[trigger] h[j + k], fold) != seen(n[k], fold);
    assert(h[j + k] != n[k]);
}

proof fn lemma_occurrence_places(h: Seq<u8>, n: Seq<u8>, fold: bool, i: int)
    requires
        0 <= i,
    ensures
        match occurrence_from(h, n, fold, i) {
            Some(p) => i <= p && occurs_at(h, n, fold, p) && forall|j: int|
                i <= j < p ==> !#[trigger] occurs_at(h, n, fold, j),
            None => forall|j: int| i <= j ==> !#[trigger] occurs_at(h, n, fold, j),
        },
    decreases h.len() - i,
{
    if i + n.len() <= h.len() && !occurs_at(h, n, fold, i) && i < h.len() {
        lemma_occurrence_places(h, n, fold, i + 1);
    }
}

} // verus!
