//! Applying a signed difference to an unsigned raw counter.
use vstd::prelude::*;

verus! {

/// The signed 32-bit value whose two's-complement bit pattern is `w`.
pub open spec fn word_as_signed(w: u32) -> int {
    if w < 0x8000_0000 {
        w as int
    } else {
        w as int - 0x1_0000_0000
    }
}

/// `base + delta`, or 0 where the sum leaves the range of `u32`.
pub open spec fn saturating_apply_delta_spec(base: u32, delta: int) -> u32 {
    if 0 <= base + delta <= u32::MAX {
        (base + delta) as u32
    } else {
        0
    }
}

/// `base + delta` where it lies in the range of `u32`, `None` otherwise.
pub fn checked_add_signed(base: u32, delta: i32) -> (r: Option<u32>)
    ensures
        r == (if 0 <= base + delta <= u32::MAX {
            Some((base + delta) as u32)
        } else {
            None::<u32>
        }),
{
    if delta >= 0 {
        base.checked_add(delta as u32)
    } else {
        let magnitude: u32 = if delta == i32::MIN {
            0x8000_0000u32
        } else {
            (-delta) as u32
        };
        base.checked_sub(magnitude)
    }
}

/// Applies `delta` to the counter `base`; a result outside the range of `u32`
/// becomes 0 instead of an error.
pub fn saturating_apply_delta(base: u32, delta: i32) -> (r: u32)
    ensures
        r == saturating_apply_delta_spec(base, delta as int),
{
    match checked_add_signed(base, delta) {
        Some(v) => v,
        None => 0,
    }
}

/// Reads the stored word `w` as a signed difference, bit for bit.
pub fn word_to_signed(w: u32) -> (r: i32)
    ensures
        r as int == word_as_signed(w),
{
    if w < 0x8000_0000 {
        w as i32
    } else {
        let low: u32 = w - 0x8000_0000u32;
        (low as i32) - 0x4000_0000i32 - 0x4000_0000i32
    }
}

/// Stores the signed difference `d` as a word, bit for bit.
pub fn signed_to_word(d: i32) -> (r: u32)
    ensures
        word_as_signed(r) == d as int,
{
    if d >= 0 {
        d as u32
    } else {
        let shifted: i32 = d + 0x4000_0000i32 + 0x4000_0000i32;
        (shifted as u32) + 0x8000_0000u32
    }
}

} // verus!
