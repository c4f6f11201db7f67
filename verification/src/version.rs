//! The order of version strings: runs of digits compare as numbers.
use vstd::prelude::*;
use crate::memory::Memory;
use crate::order::{at, at_or_nul, byte_diff};
use crate::scan::{
    c_bytes,
    find,
    is_first,
    lemma_c_len,
    lemma_find,
    lemma_find_is,
    readable,
    scan_c_string,
};

verus! {

/// A decimal digit.
pub open spec fn is_digit(b: u8) -> bool {
    0x30 <= b <= 0x39
}

/// Anything but a decimal digit.
pub open spec fn no_digit() -> spec_fn(u8) -> bool {
    |b: u8| !is_digit(b)
}

/// How many digits stand in `x` from `i` on.
pub open spec fn digit_run(x: Seq<u8>, i: int) -> int {
    find(x, i, x.len() - i, no_digit())
}

/// What a comparison of two runs of digits gives: the order of the strings, or
/// the place from which they are compared on.
pub enum Step {
    Done(int),
    Go(int),
}

/// Runs of which one has a leading zero compare as fractions do: digit by digit,
/// and where one ends the other one is the smaller, until a digit other than
/// zero was seen.
pub open spec fn fraction_step(x: Seq<u8>, y: Seq<u8>, i: int, nonzero: bool) -> Step
    decreases x.len() - i,
{
    let a = at_or_nul(x, i);
    let b = at_or_nul(y, i);
    if !is_digit(a) && !is_digit(b) {
        Step::Go(i)
    } else if !is_digit(a) {
        Step::Done(if nonzero {
            a - b
        } else {
            1
        })
    } else if !is_digit(b) {
        Step::Done(if nonzero {
            a - b
        } else {
            -1
        })
    } else if a != b {
        Step::Done(a - b)
    } else if i >= x.len() {
        Step::Go(i)
    } else {
        fraction_step(x, y, i + 1, nonzero || a != 0x30)
    }
}

/// The first difference among `n` bytes of each string from `i` on, or zero.
pub open spec fn first_gap(x: Seq<u8>, y: Seq<u8>, i: int, n: int) -> int
    decreases n,
{
    if n <= 0 {
        0
    } else if at_or_nul(x, i) != at_or_nul(y, i) {
        at_or_nul(x, i) - at_or_nul(y, i)
    } else {
        first_gap(x, y, i + 1, n - 1)
    }
}

/// Runs without a leading zero compare as numbers do: the longer one is the
/// greater, and runs of one length go by their first difference.
pub open spec fn number_step(x: Seq<u8>, y: Seq<u8>, i: int) -> Step {
    let k = digit_run(x, i);
    let l = digit_run(y, i);
    if k != l {
        Step::Done(if k > l {
            1
        } else {
            -1
        })
    } else if first_gap(x, y, i, k) != 0 {
        Step::Done(first_gap(x, y, i, k))
    } else {
        Step::Go(i + k)
    }
}

/// The comparison of the runs of digits at `i`.
pub open spec fn run_step(x: Seq<u8>, y: Seq<u8>, i: int) -> Step {
    if at_or_nul(x, i) == 0x30 || at_or_nul(y, i) == 0x30 {
        fraction_step(x, y, i, false)
    } else {
        number_step(x, y, i)
    }
}

/// The order of two version strings from `i` on.
pub open spec fn version_order_from(x: Seq<u8>, y: Seq<u8>, i: int) -> int
    decreases x.len() - i,
{
    let a = at_or_nul(x, i);
    let b = at_or_nul(y, i);
    if i < 0 || i >= x.len() {
        a - b
    } else if a == 0 && b == 0 {
        0
    } else if is_digit(a) && is_digit(b) {
        match run_step(x, y, i) {
            Step::Done(d) => d,
            Step::Go(j) => if i < j <= x.len() {
                version_order_from(x, y, j)
            } else {
                0
            },
        }
    } else if a != b {
        a - b
    } else {
        version_order_from(x, y, i + 1)
    }
}

/// The order of two version strings, each of which a NUL or its end closes.
pub open spec fn version_order(x: Seq<u8>, y: Seq<u8>) -> int {
    version_order_from(x, y, 0)
}

/// Byte `index`, or a NUL behind the end.
pub fn strvers_byte(bytes: &[u8], index: usize) -> (r: u8)
    ensures
        r == at_or_nul(bytes@, at(index)),
{
    if index < bytes.len() {
        bytes[index]
    } else {
        0
    }
}

fn ascii_digit(b: u8) -> (r: bool)
    ensures
        r == is_digit(b),
{
    0x30 <= b && b <= 0x39
}

fn compare_fractions(s1: &[u8], s2: &[u8], start: usize) -> (r: Result<i32, usize>)
    requires
        start < s1@.len(),
        is_digit(at_or_nul(s1@, at(start))),
        is_digit(at_or_nul(s2@, at(start))),
    ensures
        match r {
            Ok(d) => fraction_step(s1@, s2@, at(start), false) == Step::Done(d + 0),
            Err(j) => fraction_step(s1@, s2@, at(start), false) == Step::Go(j + 0) && start < j
                && j <= s1@.len(),
        },
{
    let mut i: usize = start;
    let mut nonzero: bool = false;
    let len: usize = s1.len();
    loop
        invariant
            start <= i <= len,
            len == s1@.len(),
            start < len,
            i == start ==> is_digit(at_or_nul(s1@, at(i))) && is_digit(at_or_nul(s2@, at(i))),
            fraction_step(s1@, s2@, at(i), nonzero) == fraction_step(s1@, s2@, at(start), false),
        decreases len - i,
    {
        let d1: u8 = strvers_byte(s1, i);
        let d2: u8 = strvers_byte(s2, i);
        let is1: bool = ascii_digit(d1);
        let is2: bool = ascii_digit(d2);
        if !is1 && !is2 {
            return Err(i);
        }
        if !is1 {
            return Ok(
                if nonzero {
                    byte_diff(d1, d2)
                } else {
                    1
                },
            );
        }
        if !is2 {
            return Ok(
                if nonzero {
                    byte_diff(d1, d2)
                } else {
                    -1
                },
            );
        }
        if d1 != d2 {
            return Ok(byte_diff(d1, d2));
        }
        if d1 != 0x30 {
            nonzero = true;
        }
        i += 1;
    }
}

/// Walking two runs of digits side by side counts their lengths up to the end of
/// the shorter one, and one more for the longer.
fn compare_numbers(s1: &[u8], s2: &[u8], start: usize) -> (r: Result<i32, usize>)
    requires
        start < s1@.len(),
        is_digit(at_or_nul(s1@, at(start))),
        is_digit(at_or_nul(s2@, at(start))),
    ensures
        match r {
            Ok(d) => number_step(s1@, s2@, at(start)) == Step::Done(d + 0),
            Err(j) => number_step(s1@, s2@, at(start)) == Step::Go(j + 0) && start < j && j
                <= s1@.len(),
        },
{
    let ghost x = s1@;
    let ghost y = s2@;
    let len: usize = s1.len();
    let other: usize = s2.len();
    proof {
        lemma_find(x, at(start), x.len() - start, no_digit());
        lemma_find(y, at(start), y.len() - start, no_digit());
    }
    let mut n: usize = 0;
    let mut diff: i32 = 0;
    loop
        invariant
            x == s1@,
            y == s2@,
            len == x.len(),
            other == y.len(),
            start + n <= len,
            start + n <= other,
            start < len,
            start < other,
            n == 0 ==> is_digit(at_or_nul(x, at(start))) && is_digit(at_or_nul(y, at(start))),
            forall|j: int| start <= j < start + n ==> is_digit(#[trigger] x[j]),
            forall|j: int| start <= j < start + n ==> is_digit(#[trigger] y[j]),
            -9 <= diff <= 9,
            forall|m: int|
                m >= n ==> #[trigger] first_gap(x, y, at(start), m) == if diff != 0 {
                    diff + 0
                } else {
                    first_gap(x, y, start + n, m - n)
                },
        decreases len - n,
    {
        let d1: u8 = strvers_byte(s1, start + n);
        let d2: u8 = strvers_byte(s2, start + n);
        let is1: bool = ascii_digit(d1);
        let is2: bool = ascii_digit(d2);
        if !is1 {
            proof {
                assert(is_first(x, at(start), x.len() - start, no_digit(), n + 0));
                lemma_find_is(x, at(start), x.len() - start, no_digit(), n + 0);
            }
        }
        if !is2 {
            proof {
                assert(is_first(y, at(start), y.len() - start, no_digit(), n + 0));
                lemma_find_is(y, at(start), y.len() - start, no_digit(), n + 0);
            }
        }
        if is1 && !is2 {
            proof {
                lemma_longer_run(x, at(start), n + 0);
            }
            return Ok(1);
        }
        if is2 && !is1 {
            proof {
                lemma_longer_run(y, at(start), n + 0);
            }
            return Ok(-1);
        }
        if !is1 && !is2 {
            proof {
                assert(first_gap(x, y, at(start), n + 0) == if diff != 0 {
                    diff + 0
                } else {
                    first_gap(x, y, start + n, 0)
                });
            }
            if diff != 0 {
                return Ok(diff);
            }
            return Err(start + n);
        }
        let ghost before = diff;
        if diff == 0 {
            diff = byte_diff(d1, d2);
        }
        proof {
            assert forall|m: int| m >= n + 1 implies #[trigger] first_gap(x, y, at(start), m)
                == if diff != 0 {
                diff + 0
            } else {
                first_gap(x, y, start + n + 1, m - n - 1)
            } by {
                assert(first_gap(x, y, at(start), m) == if before != 0 {
                    before + 0
                } else {
                    first_gap(x, y, start + n, m - n)
                });
            }
        }
        n += 1;
    }
}

/// A run whose first `n + 1` bytes are digits is longer than `n`.
proof fn lemma_longer_run(x: Seq<u8>, i: int, n: int)
    requires
        0 <= i,
        0 <= n,
        i + n < x.len(),
        is_digit(x[i + n]),
        forall|j: int| i <= j < i + n ==> is_digit(#[trigger] x[j]),
    ensures
        digit_run(x, i) > n,
{
    lemma_find(x, i, x.len() - i, no_digit());
    let k = digit_run(x, i);
    if k <= n {
        assert(no_digit()(x[i + k]));
        assert(is_digit(x[i + k]));
    }
}

/// The order of two version strings.
pub fn strverscmp_bytes(s1: &[u8], s2: &[u8]) -> (r: i32)
    ensures
        r == version_order(s1@, s2@),
{
    let len: usize = s1.len();
    let mut i: usize = 0;
    loop
        invariant
            i <= len,
            len == s1@.len(),
            version_order_from(s1@, s2@, at(i)) == version_order(s1@, s2@),
        decreases len - i,
    {
        let c1: u8 = strvers_byte(s1, i);
        let c2: u8 = strvers_byte(s2, i);
        if c1 == 0 && c2 == 0 {
            return 0;
        }
        if ascii_digit(c1) && ascii_digit(c2) {
            let step: Result<i32, usize> = if c1 == 0x30 || c2 == 0x30 {
                compare_fractions(s1, s2, i)
            } else {
                compare_numbers(s1, s2, i)
            };
            match step {
                Ok(d) => {
                    return d;
                },
                Err(j) => {
                    i = j;
                },
            }
            continue;
        }
        if c1 != c2 {
            return byte_diff(c1, c2);
        }
        i += 1;
    }
}

/// The order of the version strings at `s1` and `s2`; a null pointer orders
/// before any string.
pub fn strverscmp(mem: &Memory, s1: usize, s2: usize) -> (r: i32)
    requires
        s1 != 0 && s2 != 0 ==> readable(mem@, at(s1), None) && readable(mem@, at(s2), None),
    ensures
        r == if s1 == 0 && s2 == 0 {
            0
        } else if s1 == 0 {
            -1
        } else if s2 == 0 {
            1
        } else {
            version_order(c_bytes(mem@, at(s1), None), c_bytes(mem@, at(s2), None))
        },
{
    if s1 == 0 && s2 == 0 {
        return 0;
    }
    if s1 == 0 {
        return -1;
    }
    if s2 == 0 {
        return 1;
    }
    let a: Vec<u8> = version_text(mem, s1);
    let b: Vec<u8> = version_text(mem, s2);
    strverscmp_bytes(a.as_slice(), b.as_slice())
}

fn version_text(mem: &Memory, s: usize) -> (r: Vec<u8>)
    requires
        readable(mem@, at(s), None),
    ensures
        r@ == c_bytes(mem@, at(s), None),
{
    proof {
        lemma_c_len(mem@, at(s), None);
    }
    let (n, _ended) = scan_c_string(mem, s, None);
    mem.read(s, n)
}

/// As [`strverscmp`].
pub fn __strverscmp(mem: &Memory, s1: usize, s2: usize) -> (r: i32)
    requires
        s1 != 0 && s2 != 0 ==> readable(mem@, at(s1), None) && readable(mem@, at(s2), None),
    ensures
        r == if s1 == 0 && s2 == 0 {
            0
        } else if s1 == 0 {
            -1
        } else if s2 == 0 {
            1
        } else {
            version_order(c_bytes(mem@, at(s1), None), c_bytes(mem@, at(s2), None))
        },
{
    strverscmp(mem, s1, s2)
}

/// The outcome of a comparison of runs in the other direction.
pub open spec fn opposite(s: Step) -> Step {
    match s {
        Step::Done(d) => Step::Done(-d),
        Step::Go(j) => Step::Go(j),
    }
}

proof fn lemma_fraction_opposite(x: Seq<u8>, y: Seq<u8>, i: int, nonzero: bool)
    requires
        0 <= i,
    ensures
        fraction_step(y, x, i, nonzero) == opposite(fraction_step(x, y, i, nonzero)),
        fraction_step(x, y, i, nonzero) matches Step::Go(j) ==> i <= j && (is_digit(
            at_or_nul(x, i),
        ) && is_digit(at_or_nul(y, i)) ==> i < j) && (i < j ==> j <= x.len() && j <= y.len()),
    decreases x.len() - i,
{
    let a = at_or_nul(x, i);
    let b = at_or_nul(y, i);
    if is_digit(a) && is_digit(b) && a == b {
        lemma_fraction_opposite(x, y, i + 1, nonzero || a != 0x30);
    }
}

proof fn lemma_gap_opposite(x: Seq<u8>, y: Seq<u8>, i: int, n: int)
    ensures
        first_gap(y, x, i, n) == -first_gap(x, y, i, n),
    decreases n,
{
    if n > 0 {
        lemma_gap_opposite(x, y, i + 1, n - 1);
    }
}

proof fn lemma_version_antisymmetric(x: Seq<u8>, y: Seq<u8>, i: int)
    requires
        0 <= i,
    ensures
        version_order_from(x, y, i) == -version_order_from(y, x, i),
    decreases x.len() + y.len() - 2 * i,
{
    let a = at_or_nul(x, i);
    let b = at_or_nul(y, i);
    if i < x.len() && i < y.len() {
        if is_digit(a) && is_digit(b) {
            lemma_fraction_opposite(x, y, i, false);
            lemma_gap_opposite(x, y, i, digit_run(x, i));
            lemma_find(x, i, x.len() - i, no_digit());
            lemma_find(y, i, y.len() - i, no_digit());
            assert(run_step(y, x, i) == opposite(run_step(x, y, i)));
            match run_step(x, y, i) {
                Step::Done(d) => {},
                Step::Go(j) => {
                    if j > i {
                        lemma_version_antisymmetric(x, y, j);
                    }
                },
            }
        } else if a == b {
            lemma_version_antisymmetric(x, y, i + 1);
        }
    }
}

/// Comparing versions in the other direction gives the opposite order.
pub proof fn law_version_order_is_antisymmetric(x: Seq<u8>, y: Seq<u8>)
    ensures
        version_order(x, y) == -version_order(y, x),
{
    lemma_version_antisymmetric(x, y, 0);
}

/// Versions that agree up to runs of digits without leading zeros, of which one
/// is longer, are ordered by that: the longer number is the greater.
pub proof fn law_longer_number_is_greater(x: Seq<u8>, y: Seq<u8>, i: int)
    requires
        0 <= i < x.len(),
        i < y.len(),
        is_digit(x[i]) && x[i] != 0x30,
        is_digit(y[i]) && y[i] != 0x30,
        digit_run(x, i) > digit_run(y, i),
    ensures
        version_order_from(x, y, i) == 1,
{
}

/// A version equals itself.
pub proof fn law_version_equals_itself(x: Seq<u8>)
    ensures
        version_order(x, x) == 0,
{
    law_version_order_is_antisymmetric(x, x);
}

/// Equal runs of digits are passed over, as fractions too.
proof fn lemma_fraction_passes(x: Seq<u8>, y: Seq<u8>, i: int, e: int, nonzero: bool)
    requires
        0 <= i <= e,
        e < x.len() && e < y.len(),
        forall|j: int| i <= j < e ==> #[trigger] x[j] == y[j] && is_digit(x[j]),
        !is_digit(x[e]) && !is_digit(y[e]),
    ensures
        fraction_step(x, y, i, nonzero) == Step::Go(e),
    decreases e - i,
{
    if i < e {
        assert(x[i] == y[i]);
        lemma_fraction_passes(x, y, i + 1, e, nonzero || x[i] != 0x30);
    }
}

/// Digits that agree do not part two runs.
proof fn lemma_no_gap(x: Seq<u8>, y: Seq<u8>, i: int, n: int)
    requires
        0 <= i,
        i + n <= x.len() && i + n <= y.len(),
        forall|j: int| i <= j < i + n ==> #[trigger] x[j] == y[j],
    ensures
        first_gap(x, y, i, n) == 0,
    decreases n,
{
    if n > 0 {
        assert(x[i] == y[i]);
        lemma_no_gap(x, y, i + 1, n - 1);
    }
}

/// The first of `n` digits that differs decides.
proof fn lemma_gap_at(x: Seq<u8>, y: Seq<u8>, i: int, n: int, k: int)
    requires
        0 <= i <= k < i + n,
        i + n <= x.len() && i + n <= y.len(),
        forall|j: int| i <= j < k ==> #[trigger] x[j] == y[j],
        x[k] != y[k],
    ensures
        first_gap(x, y, i, n) == x[k] - y[k],
    decreases n,
{
    if i < k {
        assert(x[i] == y[i]);
        lemma_gap_at(x, y, i + 1, n - 1, k);
    }
}

/// A run of digits that ends at `e`.
proof fn lemma_run_ends(x: Seq<u8>, i: int, e: int)
    requires
        0 <= i <= e <= x.len(),
        forall|j: int| i <= j < e ==> is_digit(#[trigger] x[j]),
        e < x.len() ==> !is_digit(x[e]),
    ensures
        digit_run(x, i) == e - i,
{
    assert(is_first(x, i, x.len() - i, no_digit(), e - i));
    lemma_find_is(x, i, x.len() - i, no_digit(), e - i);
}

/// What two strings have in common in front, up to a place that no run of digits
/// reaches across, is passed over.
proof fn lemma_common_front(x: Seq<u8>, y: Seq<u8>, k: int, i: int)
    requires
        0 <= k <= i,
        i <= x.len() && i <= y.len(),
        forall|j: int| 0 <= j < i ==> #[trigger] x[j] == y[j] && x[j] != 0,
        i == 0 || !is_digit(x[i - 1]),
    ensures
        version_order_from(x, y, k) == version_order_from(x, y, i),
    decreases i - k,
{
    if k < i {
        assert(x[k] == y[k] && x[k] != 0);
        if is_digit(x[k]) {
            lemma_find(x, k, i - k, no_digit());
            let e = k + find(x, k, i - k, no_digit());
            assert(e < i) by {
                if e == i {
                    assert(!no_digit()(x[i - 1]));
                }
            }
            assert forall|j: int| k <= j < e implies #[trigger] x[j] == y[j] && is_digit(x[j]) by {
                assert(!no_digit()(x[j]));
            }
            assert forall|j: int| k <= j < e implies is_digit(#[trigger] y[j]) by {
                assert(x[j] == y[j]);
            }
            assert(no_digit()(x[e]));
            assert(x[e] == y[e]);
            assert(e > k) by {
                if e == k {
                    assert(no_digit()(x[k]));
                }
            }
            lemma_fraction_passes(x, y, k, e, false);
            lemma_run_ends(x, k, e);
            lemma_run_ends(y, k, e);
            lemma_no_gap(x, y, k, e - k);
            assert(run_step(x, y, k) == Step::Go(e));
            lemma_common_front(x, y, e, i);
        } else {
            lemma_common_front(x, y, k + 1, i);
        }
    }
}

/// Where two versions part at digits of which one is a zero, with no digit in
/// front, the one with the zero is the smaller, by the difference of the two
/// digits: the lengths of the numbers do not matter.
pub proof fn law_leading_zero_is_smaller(x: Seq<u8>, y: Seq<u8>, i: int)
    requires
        0 <= i < x.len(),
        i < y.len(),
        forall|j: int| 0 <= j < i ==> #[trigger] x[j] == y[j] && x[j] != 0,
        i == 0 || !(0x30 <= x[i - 1] <= 0x39),
        x[i] == 0x30,
        0x31 <= y[i] <= 0x39,
    ensures
        version_order(x, y) == 0x30 - y[i],
        version_order(y, x) == y[i] - 0x30,
{
    lemma_common_front(x, y, 0, i);
    law_version_order_is_antisymmetric(x, y);
}

/// Where two numbers without leading zeros begin behind a common front, the one
/// with more digits is the greater version.
pub proof fn law_more_digits_are_greater(x: Seq<u8>, y: Seq<u8>, i: int, e: int)
    requires
        0 <= i < e,
        e < x.len(),
        e <= y.len(),
        forall|j: int| 0 <= j < i ==> #[trigger] x[j] == y[j] && x[j] != 0,
        i == 0 || !(0x30 <= x[i - 1] <= 0x39),
        x[i] != 0x30 && y[i] != 0x30,
        forall|j: int| i <= j <= e ==> 0x30 <= #[trigger] x[j] <= 0x39,
        forall|j: int| i <= j < e ==> 0x30 <= #[trigger] y[j] <= 0x39,
        e < y.len() ==> !(0x30 <= y[e] <= 0x39),
    ensures
        version_order(x, y) == 1,
        version_order(y, x) == -1,
{
    assert(0x30 <= x[i] <= 0x39 && 0x30 <= y[i] <= 0x39);
    lemma_common_front(x, y, 0, i);
    lemma_run_ends(y, i, e);
    assert(is_digit(x[i + (e - i)]));
    lemma_longer_run(x, i, e - i);
    law_version_order_is_antisymmetric(x, y);
}

/// Numbers of as many digits, without leading zeros and behind a common front, go
/// by their first digit that differs.
pub proof fn law_as_many_digits_go_by_the_first_difference(
    x: Seq<u8>,
    y: Seq<u8>,
    i: int,
    k: int,
    e: int,
)
    requires
        0 <= i <= k < e,
        e <= x.len(),
        e <= y.len(),
        forall|j: int| 0 <= j < k ==> #[trigger] x[j] == y[j] && x[j] != 0,
        i == 0 || !(0x30 <= x[i - 1] <= 0x39),
        x[i] != 0x30 && y[i] != 0x30,
        forall|j: int| i <= j < e ==> 0x30 <= #[trigger] x[j] <= 0x39,
        forall|j: int| i <= j < e ==> 0x30 <= #[trigger] y[j] <= 0x39,
        e < x.len() ==> !(0x30 <= x[e] <= 0x39),
        e < y.len() ==> !(0x30 <= y[e] <= 0x39),
        x[k] != y[k],
    ensures
        version_order(x, y) == x[k] - y[k],
{
    assert(0x30 <= x[i] <= 0x39 && 0x30 <= y[i] <= 0x39);
    lemma_common_front(x, y, 0, i);
    lemma_run_ends(x, i, e);
    lemma_run_ends(y, i, e);
    lemma_gap_at(x, y, i, e - i, k);
}

/// Where two versions part at bytes that are not both digits, with no digit in
/// front, those bytes decide; the end of a version counts as a NUL.
pub proof fn law_first_byte_that_differs_decides(x: Seq<u8>, y: Seq<u8>, i: int)
    requires
        0 <= i <= x.len(),
        i <= y.len(),
        forall|j: int| 0 <= j < i ==> #[trigger] x[j] == y[j] && x[j] != 0,
        i == 0 || !(0x30 <= x[i - 1] <= 0x39),
        i < x.len() && i < y.len() ==> !(0x30 <= x[i] <= 0x39) || !(0x30 <= y[i] <= 0x39),
    ensures
        ({
            let a = if i < x.len() {
                x[i]
            } else {
                0
            };
            let b = if i < y.len() {
                y[i]
            } else {
                0
            };
            a != b ==> version_order(x, y) == a - b
        }),
{
    lemma_common_front(x, y, 0, i);
}

/// Fractions that agree up to `e`.
proof fn lemma_fraction_reaches(x: Seq<u8>, y: Seq<u8>, i: int, e: int, nonzero: bool)
    requires
        0 <= i <= e,
        e <= x.len() && e <= y.len(),
        forall|j: int| i <= j < e ==> #[trigger] x[j] == y[j] && is_digit(x[j]),
    ensures
        fraction_step(x, y, i, nonzero) == fraction_step(
            x,
            y,
            e,
            nonzero || exists|j: int| i <= j < e && #[trigger] x[j] != 0x30,
        ),
    decreases e - i,
{
    if i < e {
        assert(x[i] == y[i]);
        lemma_fraction_reaches(x, y, i + 1, e, nonzero || x[i] != 0x30);
        let a = exists|j: int| i <= j < e && #[trigger] x[j] != 0x30;
        let b = exists|j: int| i + 1 <= j < e && #[trigger] x[j] != 0x30;
        if a {
            let j = choose|j: int| i <= j < e && #[trigger] x[j] != 0x30;
            assert(x[i] != 0x30 || i + 1 <= j);
        }
        assert(a == (x[i] != 0x30 || b));
    } else {
        assert(!exists|j: int| i <= j < e && #[trigger] x[j] != 0x30);
    }
}

/// Numbers that begin with a zero behind a common front are fractions. Where they
/// differ in a digit, that digit decides. Where one is the other with more digits
/// behind it, and holds a digit other than zero before them, the shorter one is
/// the smaller; where all common digits are zeros, the longer one is.
pub proof fn law_fractions_go_digit_by_digit(x: Seq<u8>, y: Seq<u8>, i: int, k: int)
    requires
        0 <= i < k,
        k < x.len(),
        k <= y.len(),
        forall|j: int| 0 <= j < k ==> #[trigger] x[j] == y[j] && x[j] != 0,
        i == 0 || !(0x30 <= x[i - 1] <= 0x39),
        x[i] == 0x30,
        forall|j: int| i <= j <= k ==> 0x30 <= #[trigger] x[j] <= 0x39,
        k < y.len() ==> x[k] != y[k],
    ensures
        ({
            let b = if k < y.len() {
                y[k]
            } else {
                0
            };
            let zeros = forall|j: int| i <= j < k ==> #[trigger] x[j] == 0x30;
            version_order(x, y) == if zeros && !(0x30 <= b <= 0x39) {
                -1
            } else {
                x[k] - b
            }
        }),
{
    assert(x[i] == y[i]);
    lemma_common_front(x, y, 0, i);
    lemma_fraction_reaches(x, y, i, k, false);
    assert(0x30 <= x[k] <= 0x39);
    let zeros = forall|j: int| i <= j < k ==> #[trigger] x[j] == 0x30;
    let other = exists|j: int| i <= j < k && #[trigger] x[j] != 0x30;
    if other {
        let j = choose|j: int| i <= j < k && #[trigger] x[j] != 0x30;
        assert(!zeros);
    } else {
        assert(zeros);
    }
}

/// Versions are in order equal only where they are the same bytes.
pub proof fn law_equal_versions_are_the_same(x: Seq<u8>, y: Seq<u8>)
    requires
        !x.contains(0),
        !y.contains(0),
        version_order(x, y) == 0,
    ensures
        x == y,
{
    lemma_same_from(x, y, 0);
}

proof fn lemma_fraction_same(x: Seq<u8>, y: Seq<u8>, i: int, nonzero: bool)
    requires
        0 <= i,
    ensures
        fraction_step(x, y, i, nonzero) matches Step::Go(j) ==> forall|k: int|
            i <= k < j ==> at_or_nul(x, k) == at_or_nul(y, k),
        fraction_step(x, y, i, nonzero) matches Step::Done(d) ==> d != 0,
    decreases x.len() - i,
{
    let a = at_or_nul(x, i);
    let b = at_or_nul(y, i);
    if is_digit(a) && is_digit(b) && a == b && i < x.len() {
        lemma_fraction_same(x, y, i + 1, nonzero || a != 0x30);
    }
}

proof fn lemma_gap_same(x: Seq<u8>, y: Seq<u8>, i: int, n: int)
    requires
        first_gap(x, y, i, n) == 0,
    ensures
        forall|k: int| i <= k < i + n ==> at_or_nul(x, k) == at_or_nul(y, k),
    decreases n,
{
    if n > 0 {
        lemma_gap_same(x, y, i + 1, n - 1);
    }
}

proof fn lemma_same_from(x: Seq<u8>, y: Seq<u8>, i: int)
    requires
        0 <= i,
        i <= x.len() && i <= y.len(),
        !x.contains(0),
        !y.contains(0),
        version_order_from(x, y, i) == 0,
        forall|k: int| 0 <= k < i ==> #[trigger] x[k] == y[k],
    ensures
        x == y,
    decreases x.len() - i,
{
    let a = at_or_nul(x, i);
    let b = at_or_nul(y, i);
    if i < x.len() {
        assert(x.contains(x[i]));
    }
    if i < y.len() {
        assert(y.contains(y[i]));
    }
    if i >= x.len() {
        assert(x =~= y);
    } else if is_digit(a) && is_digit(b) {
        lemma_fraction_same(x, y, i, false);
        lemma_fraction_opposite(x, y, i, false);
        lemma_find(x, i, x.len() - i, no_digit());
        lemma_find(y, i, y.len() - i, no_digit());
        if digit_run(x, i) == 0 {
            assert(no_digit()(x[i]));
        }
        if first_gap(x, y, i, digit_run(x, i)) == 0 {
            lemma_gap_same(x, y, i, digit_run(x, i));
        }
        match run_step(x, y, i) {
            Step::Done(d) => {},
            Step::Go(j) => {
                assert forall|k: int| 0 <= k < j implies #[trigger] x[k] == y[k] by {
                    if k >= i {
                        assert(at_or_nul(x, k) == at_or_nul(y, k));
                    }
                }
                lemma_same_from(x, y, j);
            },
        }
    } else {
        lemma_same_from(x, y, i + 1);
    }
}

} // verus!
