//! Bytes of numbers and of literal text.
use vstd::prelude::*;
use vstd::string::*;
use crate::memory::{mapped, put, Memory};

verus! {

/// The digit of value `d`, in lower case.
pub open spec fn digit(d: int) -> u8 {
    if d < 10 {
        (0x30 + d) as u8
    } else {
        (0x57 + d) as u8
    }
}

/// The digits of `n` in the given base, without leading zeros.
pub open spec fn digits(n: nat, base: nat) -> Seq<u8>
    decreases n,
    via digits_shrink
{
    if base < 2 || n < base {
        seq![digit(n as int)]
    } else {
        digits(n / base, base).push(digit((n % base) as int))
    }
}

#[via_fn]
proof fn digits_shrink(n: nat, base: nat) {
    if !(base < 2 || n < base) {
        assert(n / base < n) by (nonlinear_arith)
            requires
                n >= base,
                base >= 2,
        ;
    }
}

/// The decimal form of `n`, with a sign where it is negative.
pub open spec fn decimal(n: int) -> Seq<u8> {
    if n < 0 {
        seq![0x2du8] + digits((-n) as nat, 10)
    } else {
        digits(n as nat, 10)
    }
}

/// Appends the digits of `n` in the given base.
pub fn push_digits(out: &mut Vec<u8>, n: u64, base: u64)
    requires
        2 <= base <= 16,
    ensures
        final(out)@ == old(out)@ + digits(n as nat, base as nat),
    decreases n,
{
    if n >= base {
        assert(n / base < n) by (nonlinear_arith)
            requires
                n >= base,
                base >= 2,
        ;
        push_digits(out, n / base, base);
    }
    let d: u8 = (n % base) as u8;
    let c: u8 = if d < 10 {
        0x30 + d
    } else {
        0x57 + d
    };
    assert(n < base ==> n % base == n) by (nonlinear_arith)
        requires
            base >= 2,
    ;
    out.push(c);
    assert(out@ =~= old(out)@ + digits(n as nat, base as nat));
}

/// Appends the decimal form of `n`.
pub fn push_decimal(out: &mut Vec<u8>, n: i32)
    ensures
        final(out)@ == old(out)@ + decimal(n as int),
{
    if n < 0 {
        out.push(0x2d);
        let wide: i64 = n as i64;
        push_digits(out, (-wide) as u64, 10);
        assert(out@ =~= old(out)@ + decimal(n as int));
    } else {
        push_digits(out, n as u64, 10);
    }
}

/// Appends bytes.
pub fn push_bytes(out: &mut Vec<u8>, b: &[u8])
    ensures
        final(out)@ == old(out)@ + b@,
{
    let mut i: usize = 0;
    while i < b.len()
        invariant
            i <= b@.len(),
            out@ == old(out)@ + b@.take(i as int),
        decreases b@.len() - i,
    {
        out.push(b[i]);
        i += 1;
        assert(out@ =~= old(out)@ + b@.take(i as int));
    }
    assert(b@.take(i as int) =~= b@);
}

/// Appends the bytes of `t`.
pub fn push_text(out: &mut Vec<u8>, t: &str)
    ensures
        final(out)@ == old(out)@ + t.spec_bytes(),
{
    push_bytes(out, t.as_bytes());
}

/// `b` cut so that it and a NUL fit in `size` bytes, with the NUL.
pub open spec fn c_text(b: Seq<u8>, size: int) -> Seq<u8> {
    if b.len() < size {
        b.push(0)
    } else {
        b.take(size - 1).push(0)
    }
}

/// Writes `b`, cut to fit with its NUL, into the `size` bytes at `buf`.
pub fn store_text(mem: &mut Memory, buf: usize, size: usize, b: &[u8])
    requires
        size > 0,
        mapped(old(mem)@, buf as int, size as int),
    ensures
        final(mem)@ == put(old(mem)@, buf as int, c_text(b@, size as int)),
{
    let space: usize = mem.size();
    let n: usize = if b.len() < size {
        b.len()
    } else {
        size - 1
    };
    let mut i: usize = 0;
    while i < n
        invariant
            i <= n,
            n <= b@.len(),
            n < size,
            buf + size <= space,
            space == mem@.len(),
            old(mem)@.len() == space,
            mem@ == put(old(mem)@, buf as int, b@.take(i as int)),
        decreases n - i,
    {
        mem.store(buf + i, b[i]);
        i += 1;
        assert(mem@ =~= put(old(mem)@, buf as int, b@.take(i as int)));
    }
    assert(mem@ =~= put(old(mem)@, buf as int, b@.take(n as int)));
    mem.store(buf + n, 0);
    assert(b@.len() < size ==> b@.take(n as int) =~= b@);
    assert(mem@ =~= put(old(mem)@, buf as int, c_text(b@, size as int)));
}

/// Writes the eleven characters that stand for a file mode, with a NUL, to `p`;
/// nothing for a null pointer.
pub fn strmode(mem: &mut Memory, p: usize, mode: &[u8; 11])
    requires
        p != 0 ==> mapped(old(mem)@, p as int, 12),
    ensures
        final(mem)@ == if p == 0 {
            old(mem)@
        } else {
            put(old(mem)@, p as int, mode@.push(0))
        },
{
    if p != 0 {
        store_text(mem, p, 12, mode.as_slice());
    }
}

/// A number in a base from 2 to 16 is the number of its other digits followed by
/// its last digit: a decimal digit below ten, and a small letter from there on.
pub proof fn law_last_digit_is_the_remainder(q: nat, d: nat, base: nat)
    requires
        2 <= base <= 16,
        d < base,
    ensures
        ({
            let c = if d < 10 {
                (0x30 + d) as u8
            } else {
                (0x61 + d - 10) as u8
            };
            digits(q * base + d, base) == if q == 0 {
                seq![c]
            } else {
                digits(q, base).push(c)
            }
        }),
{
    let n = q * base + d;
    assert(n / base == q && n % base == d) by {
        vstd::arithmetic::div_mod::lemma_fundamental_div_mod_converse(
            n as int,
            base as int,
            q as int,
            d as int,
        );
    }
    if q > 0 {
        assert(n >= base) by (nonlinear_arith)
            requires
                n == q * base + d,
                q > 0,
                base >= 2,
        ;
    } else {
        assert(n == d) by (nonlinear_arith)
            requires
                n == q * base + d,
                q == 0,
        ;
    }
}

/// The decimal form of a number has base ten, and that of a negative one is a
/// minus sign in front of that of its magnitude.
pub proof fn law_decimal_form(q: int, d: int)
    requires
        0 <= q,
        0 <= d < 10,
    ensures
        decimal(10 * q + d) == if q == 0 {
            seq![(0x30 + d) as u8]
        } else {
            decimal(q).push((0x30 + d) as u8)
        },
        10 * q + d > 0 ==> decimal(-(10 * q + d)) == seq![0x2du8] + decimal(10 * q + d),
{
    law_last_digit_is_the_remainder(q as nat, d as nat, 10);
    assert((q as nat) * 10 + d as nat == 10 * q + d);
}

/// Text that is stored is the longest front that leaves room for a NUL, and the
/// NUL.
pub proof fn law_stored_text_fits(b: Seq<u8>, size: int)
    requires
        size > 0,
    ensures
        c_text(b, size).len() <= size,
        c_text(b, size).last() == 0,
        c_text(b, size).drop_last() == b.take(c_text(b, size).len() - 1),
        c_text(b, size).len() == size || c_text(b, size).drop_last() == b,
{
    let t = c_text(b, size);
    assert(t.drop_last() =~= b.take(t.len() - 1));
    if b.len() < size {
        assert(t.drop_last() =~= b);
    }
}

} // verus!
