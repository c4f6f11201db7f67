//! Numbers in binary floating point as text, from their bits.
//!
//! A double is its sixty-four bits here. Hexadecimal text, and the text of what
//! is not a number, follow from the bits; a plan says what is left for decimal
//! formatting.
use vstd::prelude::*;
use vstd::string::*;
use vstd::utf8::*;
use crate::memory::{mapped, put, Memory, Ptr};
use crate::text::{c_text, decimal, digit, digits, push_decimal, push_digits, push_text, store_text};
use crate::version::{digit_run, is_digit, no_digit};
use crate::scan::{
    c_bytes,
    is_first,
    lemma_c_len,
    lemma_find_is,
    opt_int,
    read_c_string_bytes,
    readable,
};

verus! {

/// The greatest precision that a format can ask for.
pub const MAX_STRFROM_PRECISION: usize = 512;

/// The sign bit.
pub open spec fn is_negative(bits: u64) -> bool {
    bits >= 0x8000_0000_0000_0000
}

/// The eleven bits of the exponent.
pub open spec fn exponent_field(bits: u64) -> int {
    (bits as int / 0x10_0000_0000_0000) % 0x800
}

/// The fifty-two bits of the fraction.
pub open spec fn fraction_field(bits: u64) -> int {
    bits as int % 0x10_0000_0000_0000
}

pub open spec fn is_nan(bits: u64) -> bool {
    exponent_field(bits) == 0x7ff && fraction_field(bits) != 0
}

pub open spec fn is_finite(bits: u64) -> bool {
    exponent_field(bits) != 0x7ff
}

/// The exponent of two of a finite number that is not zero.
pub open spec fn exponent_of(bits: u64) -> int {
    if exponent_field(bits) == 0 {
        -1022
    } else {
        exponent_field(bits) - 1023
    }
}

/// The mantissa in units of the last place.
pub open spec fn mantissa_units(bits: u64) -> int {
    if exponent_field(bits) == 0 {
        fraction_field(bits)
    } else {
        0x10_0000_0000_0000 + fraction_field(bits)
    }
}

/// `n / d` rounded to the nearest integer, halves to the even one.
pub open spec fn half_even(n: int, d: int) -> int {
    let q = n / d;
    let r = n % d;
    if 2 * r > d || (2 * r == d && q % 2 == 1) {
        q + 1
    } else {
        q
    }
}

/// Sixteen to the power of `k`.
pub open spec fn pow16(k: int) -> int
    decreases k,
{
    if k <= 0 {
        1
    } else {
        16 * pow16(k - 1)
    }
}

/// The last `w` hexadecimal digits of `n`.
pub open spec fn hex_fixed(n: int, w: int) -> Seq<u8>
    decreases w,
{
    if w <= 0 {
        seq![]
    } else {
        hex_fixed(n / 16, w - 1).push(digit(n % 16))
    }
}

/// `s` without the zero digits at its end.
pub open spec fn strip_zeros(s: Seq<u8>) -> Seq<u8>
    decreases s.len(),
{
    if s.len() > 0 && s.last() == 0x30 {
        strip_zeros(s.drop_last())
    } else {
        s
    }
}

/// Upper case of an ASCII byte.
pub open spec fn upper_byte(b: u8) -> u8 {
    if 0x61 <= b <= 0x7a {
        (b - 0x20) as u8
    } else {
        b
    }
}

/// A text in upper case where `upper` is set.
pub open spec fn cased(s: Seq<u8>, upper: bool) -> Seq<u8> {
    if upper {
        Seq::new(s.len(), |i: int| upper_byte(s[i]))
    } else {
        s
    }
}

/// A point and the digits behind it, or nothing without digits.
pub open spec fn pointed(s: Seq<u8>) -> Seq<u8> {
    if s.len() == 0 {
        seq![]
    } else {
        seq![0x2eu8] + s
    }
}

/// `k` zero digits.
pub open spec fn zeros(k: int) -> Seq<u8> {
    Seq::new(k as nat, |i: int| 0x30u8)
}

/// The hexadecimal digits of a mantissa: as many as are needed, or `precision`
/// behind the point, rounded to the even digit.
pub open spec fn mantissa_text(units: int, precision: Option<usize>) -> Seq<u8> {
    let one = 0x10_0000_0000_0000int;
    match precision {
        None => digits((units / one) as nat, 16) + pointed(strip_zeros(hex_fixed(units % one, 13))),
        Some(p) => if p >= 13 {
            digits((units / one) as nat, 16) + pointed(hex_fixed(units % one, 13) + zeros(p - 13))
        } else {
            let rounded = half_even(units, pow16(13 - p));
            digits((rounded / pow16(p as int)) as nat, 16) + pointed(
                hex_fixed(rounded % pow16(p as int), p as int),
            )
        },
    }
}

/// The sign of a number as text.
pub open spec fn sign_text(bits: u64) -> Seq<u8> {
    if is_negative(bits) {
        seq![0x2du8]
    } else {
        seq![]
    }
}

/// An exponent with its sign.
pub open spec fn exponent_text(e: int) -> Seq<u8> {
    (if e >= 0 {
        seq![0x2bu8]
    } else {
        seq![]
    }) + decimal(e)
}

/// The hexadecimal text of a number.
pub open spec fn hex_float(bits: u64, precision: Option<usize>, upper: bool) -> Seq<u8> {
    if is_nan(bits) {
        cased("nan".spec_bytes(), upper)
    } else if !is_finite(bits) {
        sign_text(bits) + cased("inf".spec_bytes(), upper)
    } else {
        sign_text(bits) + cased(
            "0x".spec_bytes() + hex_body(bits, precision) + seq![0x70u8],
            upper,
        ) + exponent_text(
            if is_zero(bits) {
                0
            } else {
                exponent_of(bits)
            },
        )
    }
}

pub open spec fn is_zero(bits: u64) -> bool {
    exponent_field(bits) == 0 && fraction_field(bits) == 0
}

/// The digits of a finite number, with `precision` of them behind the point
/// where one is given.
pub open spec fn hex_body(bits: u64, precision: Option<usize>) -> Seq<u8> {
    if is_zero(bits) {
        seq![0x30u8] + pointed(
            zeros(
                match precision {
                    Some(p) => p as int,
                    None => 0,
                },
            ),
        )
    } else {
        mantissa_text(mantissa_units(bits), precision)
    }
}

fn power16(k: usize) -> (r: u128)
    requires
        k <= 13,
    ensures
        r == pow16(k as int),
        1 <= r <= 0x10_0000_0000_0000,
{
    let mut r: u128 = 1;
    let mut i: usize = 0;
    proof {
        lemma_pow16_values();
    }
    while i < k
        invariant
            i <= k <= 13,
            r == pow16(i as int),
            forall|j: int| 0 <= j <= 13 ==> 1 <= #[trigger] pow16(j) <= 0x10_0000_0000_0000,
        decreases k - i,
    {
        assert(pow16(i + 1) == 16 * pow16(i as int));
        assert(1 <= pow16(i + 1) <= 0x10_0000_0000_0000);
        r = r * 16;
        i += 1;
    }
    r
}

proof fn lemma_pow16_values()
    ensures
        forall|j: int| 0 <= j <= 13 ==> 1 <= #[trigger] pow16(j) <= 0x10_0000_0000_0000,
        pow16(13) == 0x10_0000_0000_0000,
{
    reveal_with_fuel(pow16, 15);
    assert(pow16(13) == 0x10_0000_0000_0000);
    assert forall|j: int| 0 <= j <= 13 implies 1 <= #[trigger] pow16(j) <= 0x10_0000_0000_0000 by {
        assert(j == 0 || j == 1 || j == 2 || j == 3 || j == 4 || j == 5 || j == 6 || j == 7 || j
            == 8 || j == 9 || j == 10 || j == 11 || j == 12 || j == 13);
    }
}

/// A mantissa in units of the last of thirteen hexadecimal places, rounded to
/// `precision` places, halves to the even digit; with zero digits behind it for
/// more places.
pub fn round_hex_mantissa(mantissa_units: u128, precision: usize) -> (r: u128)
    requires
        precision < 45,
    ensures
        precision >= 13 ==> r == mantissa_units << ((4 * (precision - 13)) as u32),
        precision < 13 ==> r == half_even(mantissa_units as int, pow16(13 - precision)),
{
    if precision >= 13 {
        let shift: u32 = (4 * (precision - 13)) as u32;
        return mantissa_units << shift;
    }
    let d: u128 = power16(13 - precision);
    let q: u128 = mantissa_units / d;
    let rem: u128 = mantissa_units % d;
    proof {
        assert(d == 16 * pow16(12 - precision));
        lemma_pow16_values();
        assert(pow16(12 - precision) >= 1);
    }
    assert(q <= mantissa_units / 16) by (nonlinear_arith)
        requires
            q == mantissa_units / d,
            d >= 16,
    ;
    if rem > d - rem || (rem == d - rem && q % 2 == 1) {
        q + 1
    } else {
        q
    }
}

/// Appends the last `w` hexadecimal digits of `n`.
fn push_hex_fixed(out: &mut Vec<u8>, n: u64, w: usize)
    ensures
        final(out)@ == old(out)@ + hex_fixed(n as int, w as int),
    decreases w,
{
    if w > 0 {
        push_hex_fixed(out, n / 16, w - 1);
        let d: u8 = (n % 16) as u8;
        let c: u8 = if d < 10 {
            0x30 + d
        } else {
            0x57 + d
        };
        out.push(c);
    }
    assert(out@ =~= old(out)@ + hex_fixed(n as int, w as int));
}

fn push_zeros(out: &mut Vec<u8>, k: usize)
    ensures
        final(out)@ == old(out)@ + zeros(k as int),
{
    let mut i: usize = 0;
    while i < k
        invariant
            i <= k,
            out@ == old(out)@ + zeros(i as int),
        decreases k - i,
    {
        out.push(0x30);
        i += 1;
        assert(out@ =~= old(out)@ + zeros(i as int));
    }
    assert(out@ =~= old(out)@ + zeros(k as int));
}

/// Upper case of a text from `from` on.
fn make_upper(out: &mut Vec<u8>, from: usize)
    requires
        from <= old(out)@.len(),
    ensures
        final(out)@ == old(out)@.take(from as int) + cased(old(out)@.skip(from as int), true),
{
    let len: usize = out.len();
    let mut i: usize = from;
    while i < len
        invariant
            from <= i <= len,
            out@.len() == len,
            old(out)@.len() == len,
            forall|k: int| 0 <= k < from ==> #[trigger] out@[k] == old(out)@[k],
            forall|k: int| from <= k < i ==> #[trigger] out@[k] == upper_byte(old(out)@[k]),
            forall|k: int| i <= k < len ==> #[trigger] out@[k] == old(out)@[k],
        decreases len - i,
    {
        let b: u8 = out[i];
        if 0x61 <= b && b <= 0x7a {
            out[i] = b - 0x20;
        }
        i += 1;
    }
    assert(out@ =~= old(out)@.take(from as int) + cased(old(out)@.skip(from as int), true));
}

fn drop_zeros(out: &mut Vec<u8>, from: usize)
    requires
        from <= old(out)@.len(),
    ensures
        final(out)@ == old(out)@.take(from as int) + strip_zeros(old(out)@.skip(from as int)),
{
    let ghost head = out@.take(from as int);
    let ghost tail = out@.skip(from as int);
    assert(out@ =~= head + tail);
    while out.len() > from && out[out.len() - 1] == 0x30
        invariant
            from <= out@.len(),
            head.len() == from,
            out@ == head + out@.skip(from as int),
            strip_zeros(out@.skip(from as int)) == strip_zeros(tail),
        decreases out@.len(),
    {
        let ghost s = out@.skip(from as int);
        assert(s.last() == 0x30);
        out.pop();
        assert(out@.skip(from as int) =~= s.drop_last());
        assert(out@ =~= head + out@.skip(from as int));
    }
    assert(out@.skip(from as int).len() > 0 ==> out@.skip(from as int).last() == out@.last());
}

/// Appends the hexadecimal digits of a mantissa.
fn push_mantissa(out: &mut Vec<u8>, units: u64, precision: Option<usize>)
    requires
        units < 0x20_0000_0000_0000,
    ensures
        final(out)@ == old(out)@ + mantissa_text(units as int, precision),
{
    let one: u64 = 0x10_0000_0000_0000;
    let ghost o = out@;
    match precision {
        None => {
            push_digits(out, units / one, 16);
            let ghost head = out@;
            out.push(0x2e);
            let mark: usize = out.len();
            push_hex_fixed(out, units % one, 13);
            let ghost f = hex_fixed(units as int % one as int, 13);
            assert(out@.take(mark as int) =~= head.push(0x2e));
            assert(out@.skip(mark as int) =~= f);
            drop_zeros(out, mark);
            assert(out@ =~= head.push(0x2e) + strip_zeros(f));
            if out.len() == mark {
                out.pop();
                assert(strip_zeros(f).len() == 0);
                assert(out@ =~= head);
            }
            assert(out@ =~= head + pointed(strip_zeros(f)));
        },
        Some(p) => if p >= 13 {
            push_digits(out, units / one, 16);
            out.push(0x2e);
            push_hex_fixed(out, units % one, 13);
            push_zeros(out, p - 13);
            proof {
                lemma_hex_fixed_len(units as int % one as int, 13);
            }
        } else {
            proof {
                lemma_pow16_values();
                lemma_half_even_small(units as int, pow16(13 - p));
            }
            let rounded: u128 = round_hex_mantissa(units as u128, p);
            let scale: u128 = power16(p);
            assert(rounded / scale <= rounded) by (nonlinear_arith)
                requires
                    scale >= 1,
            ;
            assert(rounded % scale < scale) by (nonlinear_arith)
                requires
                    scale >= 1,
            ;
            push_digits(out, (rounded / scale) as u64, 16);
            if p != 0 {
                out.push(0x2e);
                push_hex_fixed(out, (rounded % scale) as u64, p);
                proof {
                    lemma_hex_fixed_len((rounded % scale) as int, p as int);
                }
            }
        },
    }
    assert(out@ =~= o + mantissa_text(units as int, precision));
}

proof fn lemma_hex_fixed_len(n: int, w: int)
    requires
        w >= 0,
    ensures
        hex_fixed(n, w).len() == w,
    decreases w,
{
    if w > 0 {
        lemma_hex_fixed_len(n / 16, w - 1);
    }
}

proof fn lemma_half_even_small(n: int, d: int)
    requires
        0 <= n < 0x20_0000_0000_0000,
        d >= 1,
    ensures
        0 <= half_even(n, d) <= 0x20_0000_0000_0000,
{
    assert(0 <= n / d <= n) by (nonlinear_arith)
        requires
            n >= 0,
            d >= 1,
    ;
}

/// The text of what is not finite: a sign where `negative` is set, and a word.
fn special_text(negative: bool, nan: bool, upper: bool) -> (r: Vec<u8>)
    ensures
        r@ == (if negative {
            seq![0x2du8]
        } else {
            seq![]
        }) + cased(
            if nan {
                "nan".spec_bytes()
            } else {
                "inf".spec_bytes()
            },
            upper,
        ),
{
    let mut out: Vec<u8> = Vec::new();
    if negative {
        out.push(0x2d);
    }
    let ghost sign = out@;
    let mark: usize = out.len();
    let word: &str = if nan {
        "nan"
    } else {
        "inf"
    };
    push_text(&mut out, word);
    assert(out@.take(mark as int) =~= sign);
    assert(out@.skip(mark as int) =~= word.spec_bytes());
    if upper {
        make_upper(&mut out, mark);
    }
    assert(out@ =~= sign + cased(word.spec_bytes(), upper));
    assert(sign =~= if negative {
        seq![0x2du8]
    } else {
        seq![]
    });
    out
}

/// Appends the digits of a finite number.
fn push_hex_body(out: &mut Vec<u8>, bits: u64, precision: Option<usize>)
    ensures
        final(out)@ == old(out)@ + hex_body(bits, precision),
{
    let exponent_bits: u64 = (bits / 0x10_0000_0000_0000) % 0x800;
    let fraction: u64 = bits % 0x10_0000_0000_0000;
    if exponent_bits == 0 && fraction == 0 {
        out.push(0x30);
        match precision {
            Some(p) => if p != 0 {
                out.push(0x2e);
                push_zeros(out, p);
            },
            None => {},
        }
        assert(out@ =~= old(out)@ + hex_body(bits, precision));
    } else {
        let units: u64 = if exponent_bits == 0 {
            fraction
        } else {
            0x10_0000_0000_0000 + fraction
        };
        push_mantissa(out, units, precision);
    }
}

/// The hexadecimal text of the double with the given bits.
pub fn render_hex_float(bits: u64, precision: Option<usize>, uppercase: bool) -> (r: Vec<u8>)
    ensures
        r@ == hex_float(bits, precision, uppercase),
{
    let negative: bool = bits >= 0x8000_0000_0000_0000;
    let exponent_bits: u64 = (bits / 0x10_0000_0000_0000) % 0x800;
    let fraction: u64 = bits % 0x10_0000_0000_0000;
    if exponent_bits == 0x7ff {
        let nan: bool = fraction != 0;
        let out: Vec<u8> = special_text(negative && !nan, nan, uppercase);
        assert(out@ =~= hex_float(bits, precision, uppercase));
        return out;
    }
    let mut out: Vec<u8> = Vec::new();
    if negative {
        out.push(0x2d);
    }
    let ghost sign = out@;
    assert(sign =~= sign_text(bits));
    let mark: usize = out.len();
    push_text(&mut out, "0x");
    push_hex_body(&mut out, bits, precision);
    out.push(0x70);
    let ghost body = "0x".spec_bytes() + hex_body(bits, precision) + seq![0x70u8];
    assert(out@.take(mark as int) =~= sign);
    assert(out@.skip(mark as int) =~= body);
    if uppercase {
        make_upper(&mut out, mark);
    }
    assert(out@ =~= sign + cased(body, uppercase));
    let exponent: i32 = if exponent_bits == 0 {
        if fraction == 0 {
            0
        } else {
            -1022
        }
    } else {
        exponent_bits as i32 - 1023
    };
    push_exponent(&mut out, exponent);
    out
}

fn push_exponent(out: &mut Vec<u8>, e: i32)
    ensures
        final(out)@ == old(out)@ + exponent_text(e as int),
{
    if e >= 0 {
        out.push(0x2b);
    }
    push_decimal(out, e);
    assert(out@ =~= old(out)@ + exponent_text(e as int));
}

/// The kind of text that a format asks for.
#[derive(Clone, Copy, Debug, PartialEq, Eq, Structural)]
pub enum Conversion {
    /// Fixed point.
    Fixed { upper: bool },
    /// A power of ten.
    Scientific { upper: bool },
    /// The shorter of both.
    General { upper: bool },
    /// A power of two, hexadecimal.
    Hex { upper: bool },
    /// Anything else: the shortest text that reads back.
    Plain,
}

/// The conversion that what is left of a format stands for.
pub open spec fn conversion(s: Seq<u8>) -> Conversion {
    if s == seq![0x66u8] {
        Conversion::Fixed { upper: false }
    } else if s == seq![0x46u8] {
        Conversion::Fixed { upper: true }
    } else if s == seq![0x65u8] {
        Conversion::Scientific { upper: false }
    } else if s == seq![0x45u8] {
        Conversion::Scientific { upper: true }
    } else if s == seq![0x67u8] {
        Conversion::General { upper: false }
    } else if s == seq![0x47u8] {
        Conversion::General { upper: true }
    } else if s == seq![0x61u8] {
        Conversion::Hex { upper: false }
    } else if s == seq![0x41u8] {
        Conversion::Hex { upper: true }
    } else {
        Conversion::Plain
    }
}

/// The value of decimal digits.
pub open spec fn decimal_value(s: Seq<u8>) -> int
    decreases s.len(),
{
    if s.len() == 0 {
        0
    } else {
        10 * decimal_value(s.drop_last()) + (s.last() - 0x30)
    }
}

/// How many digits stand in `f` from `i` on.
pub open spec fn digits_at(f: Seq<u8>, i: int) -> int {
    digit_run(f, i)
}

/// The precision that digits ask for: none is zero, one too large for a size is
/// six, and none is above the greatest.
pub open spec fn precision_of(s: Seq<u8>) -> int {
    if s.len() == 0 {
        0
    } else if decimal_value(s) > usize::MAX {
        6
    } else if decimal_value(s) > MAX_STRFROM_PRECISION {
        MAX_STRFROM_PRECISION as int
    } else {
        decimal_value(s)
    }
}

/// The precision of a format, if it has one, and its conversion.
pub open spec fn format_of(f: Seq<u8>) -> (Option<int>, Conversion) {
    if f.len() == 0 || f[0] != 0x25 {
        (None, Conversion::Plain)
    } else if f.len() > 1 && f[1] == 0x2e {
        let n = digits_at(f, 2);
        (Some(precision_of(f.subrange(2, 2 + n))), conversion(f.skip(2 + n)))
    } else {
        (None, conversion(f.skip(1)))
    }
}

fn parse_precision(f: &[u8], n: usize) -> (r: usize)
    requires
        2 + n <= f@.len(),
        forall|j: int| 2 <= j < 2 + n ==> is_digit(#[trigger] f@[j]),
    ensures
        r == precision_of(f@.subrange(2, 2 + n)),
{
    if n == 0 {
        return 0;
    }
    let len: usize = f.len();
    let ghost s = f@.subrange(2, 2 + n);
    let mut value: usize = 0;
    let mut over: bool = false;
    let mut i: usize = 0;
    while i < n
        invariant
            i <= n,
            len == f@.len(),
            2 + n <= len,
            s == f@.subrange(2, 2 + n),
            forall|j: int| 2 <= j < 2 + n ==> is_digit(#[trigger] f@[j]),
            over == (decimal_value(s.take(i as int)) > usize::MAX),
            !over ==> value == decimal_value(s.take(i as int)),
        decreases n - i,
    {
        let b: u8 = f[2 + i];
        assert(is_digit(f@[2 + i]));
        let d: usize = (b - 0x30) as usize;
        proof {
            assert(s.take(i + 1).drop_last() =~= s.take(i as int));
            assert(s.take(i + 1).last() == b);
        }
        if !over {
            match value.checked_mul(10) {
                Some(ten) => match ten.checked_add(d) {
                    Some(v) => {
                        value = v;
                    },
                    None => {
                        over = true;
                    },
                },
                None => {
                    over = true;
                },
            }
        }
        i += 1;
    }
    assert(s.take(n as int) =~= s);
    if over {
        6
    } else if value > MAX_STRFROM_PRECISION {
        MAX_STRFROM_PRECISION
    } else {
        value
    }
}

fn parse_conversion(f: &[u8], from: usize) -> (r: Conversion)
    requires
        from <= f@.len(),
    ensures
        r == conversion(f@.skip(from as int)),
{
    let ghost s = f@.skip(from as int);
    if f.len() - from != 1 {
        assert forall|k: u8| #[trigger] seq![k] != s by {
            assert(seq![k].len() == 1);
        }
        return Conversion::Plain;
    }
    let c: u8 = f[from];
    proof {
        assert(s =~= seq![c]);
        assert(seq![c][0] == c);
        assert forall|k: u8| #[trigger] seq![k] == s implies k == c by {
            assert(seq![k][0] == k);
        }
    }
    if c == 0x66 {
        Conversion::Fixed { upper: false }
    } else if c == 0x46 {
        Conversion::Fixed { upper: true }
    } else if c == 0x65 {
        Conversion::Scientific { upper: false }
    } else if c == 0x45 {
        Conversion::Scientific { upper: true }
    } else if c == 0x67 {
        Conversion::General { upper: false }
    } else if c == 0x47 {
        Conversion::General { upper: true }
    } else if c == 0x61 {
        Conversion::Hex { upper: false }
    } else if c == 0x41 {
        Conversion::Hex { upper: true }
    } else {
        Conversion::Plain
    }
}

/// Reads a format: its precision, if it has one, and its conversion.
pub fn parse_format(f: &[u8]) -> (r: (Option<usize>, Conversion))
    ensures
        r.1 == format_of(f@).1,
        opt_int(r.0) == format_of(f@).0,
{
    if f.len() == 0 || f[0] != 0x25 {
        return (None, Conversion::Plain);
    }
    if f.len() > 1 && f[1] == 0x2e {
        let len: usize = f.len();
        let mut n: usize = 0;
        while 2 + n < len && 0x30 <= f[2 + n] && f[2 + n] <= 0x39
            invariant
                len == f@.len(),
                len >= 2,
                2 + n <= len,
                forall|j: int| 2 <= j < 2 + n ==> is_digit(#[trigger] f@[j]),
            decreases len - n,
        {
            n += 1;
        }
        proof {
            assert(is_first(
                f@,
                2,
                f@.len() - 2,
                no_digit(),
                n as int,
            ));
            lemma_find_is(
                f@,
                2,
                f@.len() - 2,
                no_digit(),
                n as int,
            );
        }
        return (Some(parse_precision(f, n)), parse_conversion(f, 2 + n));
    }
    (None, parse_conversion(f, 1))
}

/// How a number is to be rendered.
pub enum Plan {
    /// The text itself.
    Ready(Vec<u8>),
    /// Fixed point with so many digits behind the point.
    Fixed(usize),
    /// A power of ten with so many digits, and an upper-case mark where set.
    Scientific(usize, bool),
    /// The shorter of both with so many digits, and an upper-case mark where set.
    General(usize, bool),
    /// The shortest text that reads back.
    Plain,
}

/// `p` is the plan for a number under a format.
pub open spec fn plans(f: Seq<u8>, bits: u64, p: Plan) -> bool {
    let (precision, conv) = format_of(f);
    let places = match precision {
        Some(n) => n,
        None => 6,
    };
    let upper = match conv {
        Conversion::Fixed { upper } => upper,
        Conversion::Scientific { upper } => upper,
        Conversion::General { upper } => upper,
        Conversion::Hex { upper } => upper,
        Conversion::Plain => false,
    };
    if conv is Plain {
        p is Plain
    } else if !is_finite(bits) {
        p is Ready && p->Ready_0@ == sign_text(bits) + cased(
            if is_nan(bits) {
                "nan".spec_bytes()
            } else {
                "inf".spec_bytes()
            },
            upper,
        )
    } else if conv is Hex {
        p is Ready && p->Ready_0@ == hex_float(
            bits,
            match precision {
                Some(n) => Some(n as usize),
                None => None,
            },
            upper,
        )
    } else if conv is Fixed {
        p is Fixed && p->Fixed_0 == places
    } else if conv is Scientific {
        p is Scientific && p->Scientific_0 == places && p->Scientific_1 == upper
    } else {
        p is General && p->General_0 == places && p->General_1 == upper
    }
}

/// Plans the text of the double with the given bits under a format.
pub fn render_strfrom(format: &[u8], bits: u64) -> (r: Plan)
    ensures
        plans(format@, bits, r),
{
    let (precision, conv) = parse_format(format);
    let places: usize = match precision {
        Some(n) => n,
        None => 6,
    };
    let upper: bool = match conv {
        Conversion::Fixed { upper } => upper,
        Conversion::Scientific { upper } => upper,
        Conversion::General { upper } => upper,
        Conversion::Hex { upper } => upper,
        Conversion::Plain => {
            return Plan::Plain;
        },
    };
    let exponent_bits: u64 = (bits / 0x10_0000_0000_0000) % 0x800;
    let fraction: u64 = bits % 0x10_0000_0000_0000;
    if exponent_bits == 0x7ff {
        let negative: bool = bits >= 0x8000_0000_0000_0000;
        let out: Vec<u8> = special_text(negative, fraction != 0, upper);
        assert(out@ =~= sign_text(bits) + cased(
            if is_nan(bits) {
                "nan".spec_bytes()
            } else {
                "inf".spec_bytes()
            },
            upper,
        ));
        return Plan::Ready(out);
    }
    match conv {
        Conversion::Hex { upper: _ } => Plan::Ready(render_hex_float(bits, precision, upper)),
        Conversion::Fixed { upper: _ } => Plan::Fixed(places),
        Conversion::Scientific { upper: _ } => Plan::Scientific(places, upper),
        Conversion::General { upper: _ } => Plan::General(places, upper),
        Conversion::Plain => Plan::Plain,
    }
}

/// Whether a byte goes on with a character in UTF-8.
fn continues(b: u8) -> (r: bool)
    ensures
        r == is_continuation_byte(b),
{
    0x80 <= b && b <= 0xbf
}

/// The bytes of the character in UTF-8 that starts at `i`; `None` where none
/// does.
fn scalar_len(b: &[u8], i: usize) -> (r: Option<usize>)
    requires
        i < b@.len(),
    ensures
        ({
            let rest = b@.subrange(i as int, b@.len() as int);
            match r {
                Some(k) => valid_first_scalar(rest) && k == length_of_first_scalar(rest) && 0 < k
                    <= rest.len(),
                None => !valid_first_scalar(rest),
            }
        }),
{
    let ghost rest = b@.subrange(i as int, b@.len() as int);
    let left: usize = b.len() - i;
    let b0: u8 = b[i];
    assert(rest[0] == b0);
    if b0 <= 0x7f {
        assert(b0 <= 0x7f ==> (b0 & 0x7f) as u32 <= 0x7f) by (bit_vector);
        return Some(1);
    }
    if 0xc0 <= b0 && b0 <= 0xdf {
        if left < 2 || !continues(b[i + 1]) {
            return None;
        }
        let b1: u8 = b[i + 1];
        assert(rest[1] == b1);
        let c: u32 = (((b0 & 0x1f) as u32) << 6u32) | (b1 & 0x3f) as u32;
        assert(c < 0xd800) by (bit_vector)
            requires
                c == (((b0 & 0x1f) as u32) << 6u32) | (b1 & 0x3f) as u32,
        ;
        return if c >= 0x80 {
            Some(2)
        } else {
            None
        };
    }
    if 0xe0 <= b0 && b0 <= 0xef {
        if left < 3 || !continues(b[i + 1]) || !continues(b[i + 2]) {
            return None;
        }
        let b1: u8 = b[i + 1];
        let b2: u8 = b[i + 2];
        assert(rest[1] == b1 && rest[2] == b2);
        let c: u32 = (((b0 & 0x0f) as u32) << 12u32) | (((b1 & 0x3f) as u32) << 6u32) | (b2
            & 0x3f) as u32;
        return if c >= 0x800 && (c < 0xd800 || c > 0xdfff) {
            Some(3)
        } else {
            None
        };
    }
    if 0xf0 <= b0 && b0 <= 0xf7 {
        if left < 4 || !continues(b[i + 1]) || !continues(b[i + 2]) || !continues(b[i + 3]) {
            return None;
        }
        let b1: u8 = b[i + 1];
        let b2: u8 = b[i + 2];
        let b3: u8 = b[i + 3];
        assert(rest[1] == b1 && rest[2] == b2 && rest[3] == b3);
        let c: u32 = (((b0 & 0x07) as u32) << 18u32) | (((b1 & 0x3f) as u32) << 12u32) | (((b2
            & 0x3f) as u32) << 6u32) | (b3 & 0x3f) as u32;
        return if c >= 0x10000 && c <= 0x10ffff {
            Some(4)
        } else {
            None
        };
    }
    None
}

/// Whether bytes are text in UTF-8.
fn is_utf8(b: &[u8]) -> (r: bool)
    ensures
        r == valid_utf8(b@),
{
    let ghost n = b@.len() as int;
    let mut i: usize = 0;
    assert(b@.subrange(0, n) =~= b@);
    while i < b.len()
        invariant
            i <= b@.len(),
            n == b@.len(),
            valid_utf8(b@) == valid_utf8(b@.subrange(i as int, n)),
        decreases b@.len() - i,
    {
        match scalar_len(b, i) {
            Some(k) => {
                assert(pop_first_scalar(b@.subrange(i as int, n)) =~= b@.subrange(i + k, n));
                i += k;
            },
            None => {
                return false;
            },
        }
    }
    true
}

/// The format at `format`; `None`, for which the call fails, where the pointer is
/// null or the string is no text in UTF-8.
pub fn strfrom_format(mem: &Memory, format: usize) -> (r: Option<Vec<u8>>)
    requires
        format != 0 ==> readable(mem@, format as int, None),
    ensures
        r is Some == (format != 0 && valid_utf8(c_bytes(mem@, format as int, None))),
        r matches Some(f) ==> f@ == c_bytes(mem@, format as int, None),
{
    if format == 0 {
        return None;
    }
    proof {
        lemma_c_len(mem@, format as int, None);
    }
    match read_c_string_bytes(mem, Ptr { addr: format, remaining: None, owned: false }) {
        Some(f) => if is_utf8(&f) {
            Some(f)
        } else {
            None
        },
        None => None,
    }
}

/// Writes a rendered number into the `n` bytes at `s`, cut to fit with a NUL, and
/// returns its length; nothing is written without a destination.
pub fn strfrom_store(mem: &mut Memory, s: usize, n: usize, rendered: &[u8]) -> (r: i32)
    requires
        rendered@.len() <= i32::MAX,
        s != 0 && n > 0 ==> mapped(old(mem)@, s as int, n as int),
    ensures
        r == rendered@.len(),
        final(mem)@ == if s != 0 && n > 0 {
            put(old(mem)@, s as int, c_text(rendered@, n as int))
        } else {
            old(mem)@
        },
{
    if s != 0 && n > 0 {
        store_text(mem, s, n, rendered);
    }
    rendered.len() as i32
}

/// Rounding a mantissa to all of its thirteen places leaves it as it is.
pub proof fn law_full_precision_is_exact(units: int)
    requires
        units >= 0,
    ensures
        half_even(units, pow16(0)) == units,
{
    assert(units / 1 == units && units % 1 == 0);
}

/// Rounding moves a mantissa by no more than half a unit of the last place kept.
pub proof fn law_rounding_is_near(units: int, d: int)
    requires
        units >= 0,
        d >= 1,
    ensures
        -d <= 2 * (half_even(units, d) * d - units) <= d,
{
    let q = units / d;
    let r = units % d;
    assert(units == q * d + r && 0 <= r < d) by (nonlinear_arith)
        requires
            q == units / d,
            r == units % d,
            d >= 1,
    ;
    assert((q + 1) * d == q * d + d) by (nonlinear_arith);
}

/// Decimal digits read back as the number that they were made of.
pub proof fn law_decimal_digits_read_back(n: nat)
    ensures
        decimal_value(digits(n, 10)) == n,
        digits(n, 10).len() > 0,
        forall|i: int| 0 <= i < digits(n, 10).len() ==> 0x30 <= #[trigger] digits(n, 10)[i] <= 0x39,
    decreases n,
{
    let s = digits(n, 10);
    if n < 10 {
        assert(s.drop_last() =~= seq![]);
        assert(decimal_value(s.drop_last()) == 0);
    } else {
        law_decimal_digits_read_back(n / 10);
        assert(s.drop_last() =~= digits(n / 10, 10));
    }
}

/// A zero in front does not change the value of decimal digits.
pub proof fn law_leading_zero_adds_nothing(s: Seq<u8>)
    ensures
        decimal_value(seq![0x30u8] + s) == decimal_value(s),
    decreases s.len(),
{
    let t = seq![0x30u8] + s;
    if s.len() == 0 {
        assert(t.drop_last() =~= seq![]);
        assert(decimal_value(t.drop_last()) == 0);
    } else {
        assert(t.drop_last() =~= seq![0x30u8] + s.drop_last());
        law_leading_zero_adds_nothing(s.drop_last());
    }
}

/// The digits of a format end where the conversion begins.
proof fn lemma_format_digits(f: Seq<u8>, ds: Seq<u8>, c: Seq<u8>)
    requires
        f == seq![0x25u8, 0x2e] + ds + c,
        forall|i: int| 0 <= i < ds.len() ==> 0x30 <= #[trigger] ds[i] <= 0x39,
        c.len() > 0 ==> !(0x30 <= c[0] <= 0x39),
    ensures
        format_of(f) == (Some(precision_of(ds)), conversion(c)),
{
    let n = ds.len() as int;
    assert forall|j: int| 2 <= j < 2 + n implies !no_digit()(#[trigger] f[j]) by {
        assert(f[j] == ds[j - 2]);
    }
    if c.len() > 0 {
        assert(f[2 + n] == c[0]);
    }
    assert(is_first(f, 2, f.len() - 2, no_digit(), n));
    lemma_find_is(f, 2, f.len() - 2, no_digit(), n);
    assert(f.subrange(2, 2 + n) =~= ds);
    assert(f.skip(2 + n) =~= c);
    assert(f[0] == 0x25 && f[1] == 0x2e);
}

/// A precision that is written in decimal is that number, up to 512, which is the
/// greatest; one that no size holds counts as 6.
pub proof fn law_format_precision_is_the_number(n: nat, c: Seq<u8>)
    requires
        c.len() > 0 ==> !(0x30 <= c[0] <= 0x39),
    ensures
        format_of(seq![0x25u8, 0x2e] + digits(n, 10) + c) == (
            Some(
                if n <= 512 {
                    n as int
                } else if n <= usize::MAX {
                    512
                } else {
                    6
                },
            ),
            conversion(c),
        ),
{
    law_decimal_digits_read_back(n);
    lemma_format_digits(seq![0x25u8, 0x2e] + digits(n, 10) + c, digits(n, 10), c);
}

/// A point without digits behind it asks for no digits.
pub proof fn law_format_without_digits_is_zero(c: Seq<u8>)
    requires
        c.len() > 0 ==> !(0x30 <= c[0] <= 0x39),
    ensures
        format_of(seq![0x25u8, 0x2e] + c) == (Some(0int), conversion(c)),
{
    lemma_format_digits(seq![0x25u8, 0x2e] + c, seq![], c);
    assert(seq![0x25u8, 0x2e] + seq![] + c =~= seq![0x25u8, 0x2e] + c);
}

/// Without a point a format has no precision, and without a percent sign in front
/// it asks for no conversion.
pub proof fn law_format_without_point(c: Seq<u8>)
    ensures
        c.len() == 0 || c[0] != 0x2e ==> format_of(seq![0x25u8] + c) == (
            None::<int>,
            conversion(c),
        ),
        c.len() == 0 || c[0] != 0x25 ==> format_of(c) == (None::<int>, Conversion::Plain),
{
    let f = seq![0x25u8] + c;
    assert(f.skip(1) =~= c);
    assert(c.len() > 0 ==> f[1] == c[0]);
}

/// One letter names the conversion, in capitals for capital text: `f` or `F` fixed
/// point, `e` or `E` a power of ten, `g` or `G` the shorter of both, `a` or `A`
/// hexadecimal. Anything else names none.
pub proof fn law_conversion_letters(s: Seq<u8>)
    ensures
        conversion(s) is Fixed <==> s == seq![0x66u8] || s == seq![0x46u8],
        conversion(s) is Scientific <==> s == seq![0x65u8] || s == seq![0x45u8],
        conversion(s) is General <==> s == seq![0x67u8] || s == seq![0x47u8],
        conversion(s) is Hex <==> s == seq![0x61u8] || s == seq![0x41u8],
        conversion(s) matches Conversion::Fixed { upper } ==> upper == (s[0] < 0x60),
        conversion(s) matches Conversion::Scientific { upper } ==> upper == (s[0] < 0x60),
        conversion(s) matches Conversion::General { upper } ==> upper == (s[0] < 0x60),
        conversion(s) matches Conversion::Hex { upper } ==> upper == (s[0] < 0x60),
{
    if s.len() == 1 {
        assert(s =~= seq![s[0]]);
        assert(forall|c: u8| seq![c][0] == c);
        assert(forall|c: u8| s == seq![c] <==> s[0] == c);
    } else {
        assert(forall|c: u8| seq![c].len() == 1);
    }
}

/// A finite number in a decimal conversion is planned with the precision that the
/// format names, and with 6 where it names none.
pub proof fn law_planned_precision(n: nat, bits: u64, p: Plan)
    requires
        n <= 512,
        exponent_field(bits) != 0x7ff,
    ensures
        plans(seq![0x25u8, 0x2e] + digits(n, 10) + seq![0x66u8], bits, p) <==> p == Plan::Fixed(
            n as usize,
        ),
        plans(seq![0x25u8, 0x2e] + digits(n, 10) + seq![0x65u8], bits, p) <==> p
            == Plan::Scientific(n as usize, false),
        plans(seq![0x25u8, 0x2e] + digits(n, 10) + seq![0x47u8], bits, p) <==> p == Plan::General(
            n as usize,
            true,
        ),
        plans(seq![0x25u8] + seq![0x46u8], bits, p) <==> p == Plan::Fixed(6),
        plans(seq![0x25u8] + seq![0x45u8], bits, p) <==> p == Plan::Scientific(6, true),
        plans(seq![0x25u8] + seq![0x67u8], bits, p) <==> p == Plan::General(6, false),
{
    law_format_precision_is_the_number(n, seq![0x66u8]);
    law_format_precision_is_the_number(n, seq![0x65u8]);
    law_format_precision_is_the_number(n, seq![0x47u8]);
    law_format_without_point(seq![0x46u8]);
    law_format_without_point(seq![0x45u8]);
    law_format_without_point(seq![0x67u8]);
    law_conversion_letters(seq![0x66u8]);
    law_conversion_letters(seq![0x65u8]);
    law_conversion_letters(seq![0x47u8]);
    law_conversion_letters(seq![0x46u8]);
    law_conversion_letters(seq![0x45u8]);
    law_conversion_letters(seq![0x67u8]);
}

/// The number that hexadecimal digits in lower case stand for.
pub open spec fn hex_value(s: Seq<u8>) -> int
    decreases s.len(),
{
    if s.len() == 0 {
        0
    } else {
        16 * hex_value(s.drop_last()) + if s.last() <= 0x39 {
            s.last() - 0x30
        } else {
            s.last() - 0x61 + 10
        }
    }
}

/// The powers of sixteen.
pub proof fn law_powers_of_sixteen(k: int)
    requires
        0 <= k,
    ensures
        pow16(k) == vstd::arithmetic::power::pow(16, k as nat),
        pow16(k) >= 1,
    decreases k,
{
    reveal(vstd::arithmetic::power::pow);
    if k > 0 {
        law_powers_of_sixteen(k - 1);
    }
}

/// Hexadecimal digits read back as the number that they were made of.
pub proof fn law_hex_digits_read_back(n: nat)
    ensures
        hex_value(digits(n, 16)) == n,
    decreases n,
{
    let s = digits(n, 16);
    if n < 16 {
        assert(s.drop_last() =~= seq![]);
        assert(hex_value(s.drop_last()) == 0);
    } else {
        law_hex_digits_read_back(n / 16);
        assert(s.drop_last() =~= digits(n / 16, 16));
    }
}

/// `w` hexadecimal digits read back as the number that they were made of.
pub proof fn law_fixed_hex_digits_read_back(n: int, w: int)
    requires
        0 <= w,
        0 <= n < vstd::arithmetic::power::pow(16, w as nat),
    ensures
        hex_fixed(n, w).len() == w,
        hex_value(hex_fixed(n, w)) == n,
    decreases w,
{
    reveal(vstd::arithmetic::power::pow);
    let s = hex_fixed(n, w);
    if w > 0 {
        law_fixed_hex_digits_read_back(n / 16, w - 1);
        assert(s.drop_last() =~= hex_fixed(n / 16, w - 1));
    }
}

/// Zeros at the end of digits.
proof fn lemma_hex_value_zeros(s: Seq<u8>, k: int)
    requires
        0 <= k,
    ensures
        hex_value(s + zeros(k)) == hex_value(s) * pow16(k),
    decreases k,
{
    let t = s + zeros(k);
    if k == 0 {
        assert(t =~= s);
    } else {
        lemma_hex_value_zeros(s, k - 1);
        assert(t.drop_last() =~= s + zeros(k - 1));
        assert(16 * (hex_value(s) * pow16(k - 1)) == hex_value(s) * (16 * pow16(k - 1)))
            by (nonlinear_arith);
    }
}

/// Digits without the zeros at their end: only zeros are gone, and none is left.
pub proof fn law_stripped_digits(s: Seq<u8>)
    ensures
        strip_zeros(s).len() <= s.len(),
        s == strip_zeros(s) + Seq::new((s.len() - strip_zeros(s).len()) as nat, |i: int| 0x30u8),
        strip_zeros(s).len() > 0 ==> strip_zeros(s).last() != 0x30,
    decreases s.len(),
{
    if s.len() > 0 && s.last() == 0x30 {
        law_stripped_digits(s.drop_last());
        assert(s =~= s.drop_last().push(0x30));
    }
    assert(s =~= strip_zeros(s) + Seq::new(
        (s.len() - strip_zeros(s).len()) as nat,
        |i: int| 0x30u8,
    ));
}

/// Without a precision a mantissa of 52 binary places is written exactly: the
/// digits in front of the point and those behind it, which do not end in a zero,
/// make up its value.
pub proof fn law_mantissa_without_precision_is_exact(units: int) -> (r: (Seq<u8>, Seq<u8>))
    requires
        0 <= units,
    ensures
        mantissa_text(units, None) == if r.1.len() == 0 {
            r.0
        } else {
            r.0 + seq![0x2eu8] + r.1
        },
        r.1.len() <= 13,
        r.1.len() > 0 ==> r.1.last() != 0x30,
        hex_value(r.0) * 0x10_0000_0000_0000 + hex_value(r.1) * vstd::arithmetic::power::pow(
            16,
            (13 - r.1.len()) as nat,
        ) == units,
{
    let one = 0x10_0000_0000_0000int;
    let a = digits((units / one) as nat, 16);
    let all = hex_fixed(units % one, 13);
    let b = strip_zeros(all);
    lemma_pow16_values();
    law_powers_of_sixteen(13);
    law_hex_digits_read_back((units / one) as nat);
    law_fixed_hex_digits_read_back(units % one, 13);
    law_stripped_digits(all);
    law_powers_of_sixteen(13 - b.len());
    assert(all =~= b + zeros(13 - b.len()));
    lemma_hex_value_zeros(b, 13 - b.len());
    assert(mantissa_text(units, None) =~= if b.len() == 0 {
        a
    } else {
        a + seq![0x2eu8] + b
    });
    (a, b)
}

/// With a precision a mantissa has that many digits behind the point. From 13 on
/// they are exact; below, they make up the nearest number, and the even one of
/// two that are as near.
pub proof fn law_mantissa_with_precision_is_nearest(units: int, p: usize) -> (r: (
    Seq<u8>,
    Seq<u8>,
))
    requires
        0 <= units,
    ensures
        r.1.len() == p,
        mantissa_text(units, Some(p)) == if p == 0 {
            r.0
        } else {
            r.0 + seq![0x2eu8] + r.1
        },
        p >= 13 ==> hex_value(r.0) * 0x10_0000_0000_0000 + hex_value(r.1.take(13)) == units && (
        forall|i: int| 13 <= i < p ==> #[trigger] r.1[i] == 0x30),
        p < 13 ==> ({
            let unit = vstd::arithmetic::power::pow(16, (13 - p) as nat);
            let v = hex_value(r.0) * vstd::arithmetic::power::pow(16, p as nat) + hex_value(r.1);
            &&& -unit <= 2 * (v * unit - units) <= unit
            &&& 2 * (v * unit - units) == unit || 2 * (v * unit - units) == -unit ==> v % 2 == 0
        }),
{
    let one = 0x10_0000_0000_0000int;
    lemma_pow16_values();
    if p >= 13 {
        let a = digits((units / one) as nat, 16);
        let all = hex_fixed(units % one, 13);
        let b = all + zeros(p - 13);
        law_powers_of_sixteen(13);
        law_hex_digits_read_back((units / one) as nat);
        law_fixed_hex_digits_read_back(units % one, 13);
        assert(b.take(13) =~= all);
        assert(mantissa_text(units, Some(p)) =~= a + seq![0x2eu8] + b);
        (a, b)
    } else {
        let unit = pow16(13 - p);
        let top = pow16(p as int);
        law_powers_of_sixteen(13 - p);
        law_powers_of_sixteen(p as int);
        let v = half_even(units, unit);
        law_rounding_is_near(units, unit);
        if 2 * (v * unit - units) == unit || 2 * (v * unit - units) == -unit {
            law_rounding_ties_are_even(units, unit);
        }
        assert(v >= 0) by (nonlinear_arith)
            requires
                unit >= 1,
                units >= 0,
                -unit <= 2 * (v * unit - units),
        ;
        assert(v == (v / top) * top + v % top && 0 <= v % top < top && v / top >= 0)
            by (nonlinear_arith)
            requires
                top >= 1,
                v >= 0,
        ;
        let a = digits((v / top) as nat, 16);
        let b = hex_fixed(v % top, p as int);
        law_hex_digits_read_back((v / top) as nat);
        law_fixed_hex_digits_read_back(v % top, p as int);
        assert(mantissa_text(units, Some(p)) =~= if p == 0 {
            a
        } else {
            a + seq![0x2eu8] + b
        });
        (a, b)
    }
}

/// Of two numbers that are as near, rounding takes the even one.
pub proof fn law_rounding_ties_are_even(units: int, d: int)
    requires
        units >= 0,
        d >= 1,
        2 * (half_even(units, d) * d - units) == d || 2 * (half_even(units, d) * d - units) == -d,
    ensures
        half_even(units, d) % 2 == 0,
{
    let q = units / d;
    let r = units % d;
    assert(units == q * d + r && 0 <= r < d) by (nonlinear_arith)
        requires
            q == units / d,
            r == units % d,
            d >= 1,
    ;
    assert((q + 1) * d == q * d + d) by (nonlinear_arith);
}

/// The sign, the exponent field and the fraction make up the bits of a number.
pub proof fn law_fields_make_up_the_bits(bits: u64)
    ensures
        bits == (if is_negative(bits) {
            0x8000_0000_0000_0000int
        } else {
            0
        }) + exponent_field(bits) * 0x10_0000_0000_0000 + fraction_field(bits),
        0 <= exponent_field(bits) < 0x800,
        0 <= fraction_field(bits) < 0x10_0000_0000_0000,
{
}

/// The next greater bits stand for a magnitude that is greater by one unit of the
/// last place; where the exponent grows by one, a unit is twice as much.
pub proof fn law_next_magnitude_is_one_unit_greater(bits: u64)
    requires
        bits < 0x7fef_ffff_ffff_ffff,
    ensures
        ({
            let next = (bits + 1) as u64;
            ||| exponent_of(next) == exponent_of(bits) && mantissa_units(next) == mantissa_units(
                bits,
            ) + 1
            ||| exponent_of(next) == exponent_of(bits) + 1 && 2 * mantissa_units(next)
                == mantissa_units(bits) + 1
        }),
        exponent_of(bits) >= -1022,
        0 <= mantissa_units(bits) < 0x20_0000_0000_0000,
        mantissa_units(bits) < 0x10_0000_0000_0000 ==> exponent_of(bits) == -1022,
        mantissa_units(bits) == 0 <==> bits == 0,
{
}

/// The sign does not touch the magnitude.
proof fn lemma_sign_apart(bits: u64)
    requires
        bits < 0x8000_0000_0000_0000,
    ensures
        ({
            let neg = (bits + 0x8000_0000_0000_0000) as u64;
            &&& exponent_field(neg) == exponent_field(bits)
            &&& fraction_field(neg) == fraction_field(bits)
            &&& is_negative(neg)
            &&& !is_negative(bits)
        }),
{
}

/// A negative number is written as a minus sign and the number without its sign.
pub proof fn law_negative_is_signed(bits: u64, precision: Option<usize>, upper: bool)
    requires
        bits <= 0x7ff0_0000_0000_0000,
    ensures
        hex_float((bits + 0x8000_0000_0000_0000) as u64, precision, upper) == seq![0x2du8]
            + hex_float(bits, precision, upper),
{
    lemma_sign_apart(bits);
    let neg = (bits + 0x8000_0000_0000_0000) as u64;
    assert(hex_float(neg, precision, upper) =~= seq![0x2du8] + hex_float(bits, precision, upper));
}

/// Capital text is the small text with each letter made capital.
pub proof fn law_capitals(bits: u64, precision: Option<usize>, i: int)
    ensures
        ({
            let small = hex_float(bits, precision, false);
            let capital = hex_float(bits, precision, true);
            &&& capital.len() == small.len()
            &&& 0 <= i < small.len() ==> capital[i] == if 0x61 <= small[i] <= 0x7a {
                (small[i] - 0x20) as u8
            } else {
                small[i]
            }
        }),
{
    if is_finite(bits) {
        let e = if is_zero(bits) {
            0
        } else {
            exponent_of(bits)
        };
        law_decimal_digits_read_back(
            (if e < 0 {
                -e
            } else {
                e
            }) as nat,
        );
    }
}

/// A finite number other than zero is written as its sign, `0x`, the mantissa,
/// `p`, and the exponent of two in decimal with a sign.
pub proof fn law_hex_text_is_laid_out(bits: u64, precision: Option<usize>)
    requires
        0 < bits < 0x7ff0_0000_0000_0000,
    ensures
        ({
            let e = exponent_of(bits);
            hex_float(bits, precision, false) == seq![0x30u8, 0x78] + mantissa_text(
                mantissa_units(bits),
                precision,
            ) + seq![
                0x70u8,
                if e < 0 {
                    0x2du8
                } else {
                    0x2b
                },
            ] + digits(
                (if e < 0 {
                    -e
                } else {
                    e
                }) as nat,
                10,
            )
        }),
        bits < 0x10_0000_0000_0000 ==> exponent_of(bits) == -1022,
        bits >= 0x10_0000_0000_0000 ==> exponent_of(bits) == bits / 0x10_0000_0000_0000 - 1023,
{
    let e = exponent_of(bits);
    let n = (if e < 0 {
        -e
    } else {
        e
    }) as nat;
    let sign = if e < 0 {
        0x2du8
    } else {
        0x2b
    };
    lemma_words();
    let m = mantissa_text(mantissa_units(bits), precision);
    let x = seq![0x30u8, 0x78];
    assert(!is_negative(bits) && is_finite(bits) && !is_zero(bits));
    assert(hex_float(bits, precision, false) == Seq::<u8>::empty() + (x + m + seq![0x70u8])
        + exponent_text(e));
    lemma_exponent_text(e);
    assert(exponent_text(e) == seq![sign] + digits(n, 10));
    lemma_laid_out(x, m, sign, digits(n, 10));
}

/// The exponent of two: a sign and its magnitude.
proof fn lemma_exponent_text(e: int)
    ensures
        exponent_text(e) == seq![
            if e < 0 {
                0x2du8
            } else {
                0x2b
            },
        ] + digits(
            (if e < 0 {
                -e
            } else {
                e
            }) as nat,
            10,
        ),
{
    if e < 0 {
        assert(exponent_text(e) =~= seq![0x2du8] + digits((-e) as nat, 10));
    } else {
        assert(exponent_text(e) =~= seq![0x2bu8] + digits(e as nat, 10));
    }
}

proof fn lemma_laid_out(x: Seq<u8>, m: Seq<u8>, sign: u8, ds: Seq<u8>)
    ensures
        Seq::<u8>::empty() + (x + m + seq![0x70u8]) + (seq![sign] + ds) == x + m + seq![
            0x70u8,
            sign,
        ] + ds,
{
    assert(Seq::<u8>::empty() + (x + m + seq![0x70u8]) + (seq![sign] + ds) =~= x + m + seq![
        0x70u8,
        sign,
    ] + ds);
}

/// A zero is written with a zero digit, as many zeros behind the point as the
/// precision asks for, and the exponent zero.
pub proof fn law_zero_text(p: usize)
    ensures
        hex_float(0, None, false) == seq![0x30u8, 0x78, 0x30, 0x70, 0x2b, 0x30],
        hex_float(0, Some(0), false) == hex_float(0, None, false),
        p > 0 ==> hex_float(0, Some(p), false) == seq![0x30u8, 0x78, 0x30, 0x2e] + Seq::new(
            p as nat,
            |i: int| 0x30u8,
        ) + seq![0x70u8, 0x2b, 0x30],
{
    lemma_words();
    lemma_exponent_text(0);
    assert(digits(0, 10) =~= seq![0x30u8]);
    assert(hex_float(0, None, false) =~= seq![0x30u8, 0x78, 0x30, 0x70, 0x2b, 0x30]);
    assert(hex_float(0, Some(0), false) =~= hex_float(0, None, false));
    if p > 0 {
        assert(hex_float(0, Some(p), false) =~= seq![0x30u8, 0x78, 0x30, 0x2e] + Seq::new(
            p as nat,
            |i: int| 0x30u8,
        ) + seq![0x70u8, 0x2b, 0x30]);
    }
}

/// What is no finite number is written as a word: `inf` where the fraction is
/// zero, with a minus sign where it is negative, and else `nan`.
pub proof fn law_words(bits: u64, precision: Option<usize>)
    requires
        bits >= 0x7ff0_0000_0000_0000,
    ensures
        bits == 0x7ff0_0000_0000_0000 ==> hex_float(bits, precision, false) == seq![
            0x69u8,
            0x6e,
            0x66,
        ],
        0x7ff0_0000_0000_0000 < bits < 0x8000_0000_0000_0000 ==> hex_float(bits, precision, false)
            == seq![0x6eu8, 0x61, 0x6e],
        bits > 0xfff0_0000_0000_0000 ==> hex_float(bits, precision, false) == seq![
            0x6eu8,
            0x61,
            0x6e,
        ],
{
    lemma_words();
    assert(bits == 0x7ff0_0000_0000_0000 ==> hex_float(bits, precision, false) =~= seq![
        0x69u8,
        0x6e,
        0x66,
    ]);
}

/// The bytes of the words in a text.
proof fn lemma_words()
    ensures
        "0x".spec_bytes() == seq![0x30u8, 0x78],
        "nan".spec_bytes() == seq![0x6eu8, 0x61, 0x6e],
        "inf".spec_bytes() == seq![0x69u8, 0x6e, 0x66],
{
    reveal_strlit("0x");
    reveal_strlit("nan");
    reveal_strlit("inf");
    assert(is_ascii("0x"));
    assert(is_ascii("nan"));
    assert(is_ascii("inf"));
    is_ascii_spec_bytes("0x");
    is_ascii_spec_bytes("nan");
    is_ascii_spec_bytes("inf");
    assert("0x".spec_bytes() =~= seq![0x30u8, 0x78]);
    assert("nan".spec_bytes() =~= seq![0x6eu8, 0x61, 0x6e]);
    assert("inf".spec_bytes() =~= seq![0x69u8, 0x6e, 0x66]);
}

} // verus!
