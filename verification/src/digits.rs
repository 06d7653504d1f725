//! The digit view of a 32-bit signed integer.
//!
//! The sort key of a value is its two's-complement representation read as an
//! unsigned number with the sign bit flipped, which is the same as adding
//! `2^31`.  Key order equals signed order, and the key splits into four 8-bit
//! digits whose lexicographic order (most significant first) equals key order.

use vstd::arithmetic::div_mod::{lemma_breakdown, lemma_div_pos_is_pos, lemma_mod_bound};
use vstd::prelude::*;

verus! {

/// The unsigned sort key of `x`: its value shifted up by `2^31`.
pub open spec fn key(x: i32) -> int {
    x + 0x8000_0000
}

/// The 8-bit digit of the key of `x` at position `s`, position 0 being least
/// significant.  Positions past 3 do not arise: the key has four digits.
pub open spec fn dig(x: i32, s: int) -> int {
    if s <= 0 {
        key(x) % 0x100
    } else if s == 1 {
        (key(x) / 0x100) % 0x100
    } else if s == 2 {
        (key(x) / 0x1_0000) % 0x100
    } else {
        (key(x) / 0x100_0000) % 0x100
    }
}

/// The low `8*s` bits of the key of `x`: the part of the key that the first
/// `s` passes of the sort have already put in order.
pub open spec fn low(x: i32, s: int) -> int {
    if s <= 0 {
        0
    } else if s == 1 {
        key(x) % 0x100
    } else if s == 2 {
        key(x) % 0x1_0000
    } else if s == 3 {
        key(x) % 0x100_0000
    } else {
        key(x)
    }
}

/// Ascending order when values are compared on the low `8*s` key bits alone.
pub open spec fn low_sorted(v: Seq<i32>, s: int) -> bool {
    forall|i: int, j: int| 0 <= i < j < v.len() ==> low(v[i], s) <= low(v[j], s)
}

/// A digit is one unsigned byte.
pub proof fn lemma_dig_bounds(x: i32, s: int)
    ensures
        0 <= dig(x, s) < 256,
{
    let k = key(x);
    lemma_div_pos_is_pos(k, 0x100);
    lemma_div_pos_is_pos(k, 0x1_0000);
    lemma_div_pos_is_pos(k, 0x100_0000);
    lemma_mod_bound(k, 0x100);
    lemma_mod_bound(k / 0x100, 0x100);
    lemma_mod_bound(k / 0x1_0000, 0x100);
    lemma_mod_bound(k / 0x100_0000, 0x100);
}

/// Splitting a key at digit position `s`: the low bits through position
/// `s + 1` are the digit at `s`, weighted by its position, plus the bits
/// below it.  Stated per position so that all weights are literal.
pub proof fn lemma_low_step(x: i32, s: int)
    requires
        0 <= s <= 3,
    ensures
        0 <= dig(x, s) < 256,
        0 <= low(x, s),
        s == 0 ==> low(x, 1) == dig(x, 0) + low(x, 0),
        s == 1 ==> low(x, 2) == dig(x, 1) * 0x100 + low(x, 1) && low(x, 1) < 0x100,
        s == 2 ==> low(x, 3) == dig(x, 2) * 0x1_0000 + low(x, 2) && low(x, 2) < 0x1_0000,
        s == 3 ==> low(x, 4) == dig(x, 3) * 0x100_0000 + low(x, 3) && low(x, 3) < 0x100_0000,
{
    let k = key(x);
    lemma_dig_bounds(x, s);
    if s == 1 {
        lemma_breakdown(k, 0x100, 0x100);
        lemma_mod_bound(k, 0x100);
    } else if s == 2 {
        lemma_breakdown(k, 0x1_0000, 0x100);
        lemma_mod_bound(k, 0x1_0000);
    } else if s == 3 {
        lemma_breakdown(k, 0x100_0000, 0x100);
        lemma_mod_bound(k, 0x100_0000);
    }
}

/// How one more pass refines the order: a strictly smaller digit at position
/// `s` means a strictly smaller low part at position `s + 1`, and among equal
/// digits the order of the lower bits is preserved.
pub proof fn lemma_dig_order(x: i32, y: i32, s: int)
    requires
        0 <= s <= 3,
    ensures
        dig(x, s) < dig(y, s) ==> low(x, s + 1) < low(y, s + 1),
        dig(x, s) == dig(y, s) && low(x, s) <= low(y, s) ==> low(x, s + 1) <= low(y, s + 1),
{
    lemma_low_step(x, s);
    lemma_low_step(y, s);
}

/// The low part at position 4 is the whole key, so an order on it is the
/// signed order of the values themselves.
pub proof fn lemma_low_full(x: i32)
    ensures
        low(x, 4) == key(x),
{
}

/// Extract digit `s` of `x`: flip the sign bit, shift it down, mask one byte.
pub(crate) fn digit_of(x: i32, s: usize) -> (d: usize)
    requires
        s < 4,
    ensures
        d == dig(x, s as int),
        d < 256,
{
    let k: u32 = ((x as i64) + 0x8000_0000i64) as u32;
    proof {
        assert(k == key(x));
    }
    let sh: u32 = 8 * (s as u32);
    let d32: u32 = (k >> sh) & 0xff;
    proof {
        lemma_dig_bounds(x, s as int);
        if s == 0 {
            assert((k >> 0u32) & 0xffu32 == k % 0x100u32) by (bit_vector);
        } else if s == 1 {
            assert((k >> 8u32) & 0xffu32 == (k / 0x100u32) % 0x100u32) by (bit_vector);
        } else if s == 2 {
            assert((k >> 16u32) & 0xffu32 == (k / 0x1_0000u32) % 0x100u32) by (bit_vector);
        } else {
            assert((k >> 24u32) & 0xffu32 == (k / 0x100_0000u32) % 0x100u32) by (bit_vector);
        }
    }
    d32 as usize
}

} // verus!
