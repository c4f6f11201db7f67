//! Operations on the eight bytes of a word at once.
use vstd::prelude::*;
use crate::memory::lane;

verus! {

/// `0x01` in every byte.
pub const SWAR_ONES: u64 = 0x0101_0101_0101_0101;

/// The top bit of every byte.
pub const SWAR_HIGHS: u64 = 0x8080_8080_8080_8080;

/// Lower case of an ASCII byte; other bytes stay.
pub open spec fn lower(b: u8) -> u8 {
    if 0x41 <= b <= 0x5a {
        (b + 0x20) as u8
    } else {
        b
    }
}

/// Lower case of an ASCII byte; other bytes stay.
pub fn ascii_lower(b: u8) -> (r: u8)
    ensures
        r == lower(b),
{
    if 0x41 <= b && b <= 0x5a {
        b + 0x20
    } else {
        b
    }
}

/// Whether one of the eight bytes of `w` is zero.
pub fn swar_word_has_zero(w: u64) -> (r: bool)
    ensures
        r == exists|k: int| 0 <= k < 8 && #[trigger] lane(w, k) == 0,
{
    let d: u64 = w.wrapping_sub(SWAR_ONES);
    let r = (d & !w & SWAR_HIGHS) != 0;
    assert(r == (((w >> 0u64) & 0xff) as u8 == 0 || ((w >> 8u64) & 0xff) as u8 == 0 || ((w
        >> 16u64) & 0xff) as u8 == 0 || ((w >> 24u64) & 0xff) as u8 == 0 || ((w >> 32u64) & 0xff)
        as u8 == 0 || ((w >> 40u64) & 0xff) as u8 == 0 || ((w >> 48u64) & 0xff) as u8 == 0 || ((w
        >> 56u64) & 0xff) as u8 == 0)) by (bit_vector)
        requires
            d == (if w >= 0x0101_0101_0101_0101u64 {
                w - 0x0101_0101_0101_0101u64
            } else {
                w - 0x0101_0101_0101_0101u64 + 0x1_0000_0000_0000_0000
            }),
            r == ((d & !w & 0x8080_8080_8080_8080u64) != 0),
    ;
    proof {
        if r {
            assert(lane(w, 0) == 0 || lane(w, 1) == 0 || lane(w, 2) == 0 || lane(w, 3) == 0 || lane(
                w,
                4,
            ) == 0 || lane(w, 5) == 0 || lane(w, 6) == 0 || lane(w, 7) == 0);
        } else {
            assert(lane(w, 0) != 0 && lane(w, 1) != 0 && lane(w, 2) != 0 && lane(w, 3) != 0 && lane(
                w,
                4,
            ) != 0 && lane(w, 5) != 0 && lane(w, 6) != 0 && lane(w, 7) != 0);
            assert forall|k: int| 0 <= k < 8 implies #[trigger] lane(w, k) != 0 by {
                assert(k == 0 || k == 1 || k == 2 || k == 3 || k == 4 || k == 5 || k == 6 || k
                    == 7);
            }
        }
    }
    r
}

/// The word with `c` in every byte.
pub fn swar_splat(c: u8) -> (r: u64)
    ensures
        forall|k: int| 0 <= k < 8 ==> #[trigger] lane(r, k) == c,
{
    assert(c as u64 * 0x0101_0101_0101_0101u64 <= 0xffff_ffff_ffff_ffffu64) by (bit_vector);
    let r: u64 = (c as u64) * SWAR_ONES;
    assert(((r >> 0u64) & 0xff) as u8 == c && ((r >> 8u64) & 0xff) as u8 == c && ((r >> 16u64)
        & 0xff) as u8 == c && ((r >> 24u64) & 0xff) as u8 == c && ((r >> 32u64) & 0xff) as u8 == c
        && ((r >> 40u64) & 0xff) as u8 == c && ((r >> 48u64) & 0xff) as u8 == c && ((r >> 56u64)
        & 0xff) as u8 == c) by (bit_vector)
        requires
            r == c as u64 * 0x0101_0101_0101_0101u64,
    ;
    proof {
        assert(lane(r, 0) == c && lane(r, 1) == c && lane(r, 2) == c && lane(r, 3) == c && lane(
            r,
            4,
        ) == c && lane(r, 5) == c && lane(r, 6) == c && lane(r, 7) == c);
        assert forall|k: int| 0 <= k < 8 implies #[trigger] lane(r, k) == c by {
            assert(k == 0 || k == 1 || k == 2 || k == 3 || k == 4 || k == 5 || k == 6 || k == 7);
        }
    }
    r
}

/// Whether one of the eight bytes of `w` is the byte of `t` in its place.
pub fn swar_word_has_match(w: u64, t: u64) -> (r: bool)
    ensures
        r == exists|k: int| 0 <= k < 8 && #[trigger] lane(w, k) == lane(t, k),
{
    let x: u64 = w ^ t;
    assert forall|k: int| 0 <= k < 8 implies (#[trigger] lane(x, k) == 0 <==> lane(w, k) == lane(
        t,
        k,
    )) by {
        let s = (8 * k) as u64;
        assert(((x >> s) & 0xff) as u8 == 0 <==> ((w >> s) & 0xff) as u8 == ((t >> s) & 0xff) as u8)
            by (bit_vector)
            requires
                x == w ^ t,
        ;
    }
    let r: bool = swar_word_has_zero(x);
    proof {
        if r {
            let k = choose|k: int| 0 <= k < 8 && #[trigger] lane(x, k) == 0;
            assert(lane(w, k) == lane(t, k));
        }
        if exists|k: int| 0 <= k < 8 && #[trigger] lane(w, k) == lane(t, k) {
            let k = choose|k: int| 0 <= k < 8 && #[trigger] lane(w, k) == lane(t, k);
            assert(lane(x, k) == 0);
        }
    }
    r
}

/// Whether one of the eight bytes of `w` is zero or the byte of `t` in its place.
pub fn swar_word_has_zero_or(w: u64, t: u64) -> (r: bool)
    ensures
        r == exists|k: int|
            0 <= k < 8 && (#[trigger] lane(w, k) == 0 || lane(w, k) == lane(t, k)),
{
    let zero: bool = swar_word_has_zero(w);
    let same: bool = swar_word_has_match(w, t);
    proof {
        if exists|k: int| 0 <= k < 8 && (#[trigger] lane(w, k) == 0 || lane(w, k) == lane(t, k)) {
            let k = choose|k: int|
                0 <= k < 8 && (#[trigger] lane(w, k) == 0 || lane(w, k) == lane(t, k));
            assert(lane(w, k) == 0 || lane(w, k) == lane(t, k));
        }
    }
    zero || same
}

/// Lower case of each of the eight bytes of `w`.
pub fn swar_ascii_lower(w: u64) -> (r: u64)
    ensures
        forall|k: int| 0 <= k < 8 ==> #[trigger] lane(r, k) == lower(lane(w, k)),
{
    let guarded: u64 = w | SWAR_HIGHS;
    assert(guarded >= 0x8080_8080_8080_8080u64) by (bit_vector)
        requires
            guarded == w | 0x8080_8080_8080_8080u64,
    ;
    let ge_a: u64 = (guarded - 0x4141_4141_4141_4141) & SWAR_HIGHS;
    let ge_5b: u64 = (guarded - 0x5b5b_5b5b_5b5b_5b5b) & SWAR_HIGHS;
    let ascii: u64 = !w & SWAR_HIGHS;
    let r: u64 = w | ((ge_a & !ge_5b & ascii) >> 2u64);
    proof {
        lemma_lower_lane(w, guarded, ge_a, ge_5b, r, 0u64);
        lemma_lower_lane(w, guarded, ge_a, ge_5b, r, 8u64);
        lemma_lower_lane(w, guarded, ge_a, ge_5b, r, 16u64);
        lemma_lower_lane(w, guarded, ge_a, ge_5b, r, 24u64);
        lemma_lower_lane(w, guarded, ge_a, ge_5b, r, 32u64);
        lemma_lower_lane(w, guarded, ge_a, ge_5b, r, 40u64);
        lemma_lower_lane(w, guarded, ge_a, ge_5b, r, 48u64);
        lemma_lower_lane(w, guarded, ge_a, ge_5b, r, 56u64);
        assert forall|k: int| 0 <= k < 8 implies #[trigger] lane(r, k) == lower(lane(w, k)) by {
            assert(k == 0 || k == 1 || k == 2 || k == 3 || k == 4 || k == 5 || k == 6 || k == 7);
        }
    }
    r
}

proof fn lemma_lower_lane(w: u64, guarded: u64, ge_a: u64, ge_5b: u64, r: u64, s: u64)
    requires
        guarded == w | SWAR_HIGHS,
        ge_a == (guarded - 0x4141_4141_4141_4141) as u64 & SWAR_HIGHS,
        ge_5b == (guarded - 0x5b5b_5b5b_5b5b_5b5b) as u64 & SWAR_HIGHS,
        r == w | ((ge_a & !ge_5b & (!w & SWAR_HIGHS)) >> 2u64),
        s == 0 || s == 8 || s == 16 || s == 24 || s == 32 || s == 40 || s == 48 || s == 56,
    ensures
        ((r >> s) & 0xff) as u8 == lower(((w >> s) & 0xff) as u8),
{
    let a = ((w >> s) & 0xff) as u8;
    let b = ((r >> s) & 0xff) as u8;
    assert(b as int == (if 0x41 <= a && a <= 0x5a { a + 0x20 } else { a as int })) by (bit_vector)
        requires
            guarded == w | 0x8080_8080_8080_8080u64,
            ge_a == ((guarded - 0x4141_4141_4141_4141u64) as u64) & 0x8080_8080_8080_8080u64,
            ge_5b == ((guarded - 0x5b5b_5b5b_5b5b_5b5bu64) as u64) & 0x8080_8080_8080_8080u64,
            r == w | ((ge_a & !ge_5b & (!w & 0x8080_8080_8080_8080u64)) >> 2u64),
            s == 0 || s == 8 || s == 16 || s == 24 || s == 32 || s == 40 || s == 48 || s == 56,
            a == ((w >> s) & 0xff) as u8,
            b == ((r >> s) & 0xff) as u8,
    ;
}

/// Lower case of each of the eight bytes of `w`.
pub fn test_swar_ascii_lower(w: u64) -> (r: u64)
    ensures
        forall|k: int| 0 <= k < 8 ==> #[trigger] lane(r, k) == lower(lane(w, k)),
{
    swar_ascii_lower(w)
}

/// Lower case is stable: a second pass changes nothing.
pub proof fn law_lower_twice(b: u8)
    ensures
        lower(lower(b)) == lower(b),
{
}

/// Exactly the letters from `A` to `Z` are changed, each to the small letter of
/// the same place in the alphabet.
pub proof fn law_lower_letters(b: u8)
    ensures
        0x41 <= b <= 0x5a ==> 0x61 <= lower(b) <= 0x7a && lower(b) - 0x61 == b - 0x41,
        b < 0x41 || b > 0x5a ==> lower(b) == b,
{
}

} // verus!
