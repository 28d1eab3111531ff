//! Scores, confidences, thresholds and vector components are IEEE-754 single
//! precision numbers.  The library holds them as their 32-bit patterns
//! (`f32::to_bits`) and implements on those patterns the comparisons that its
//! decisions read: the IEEE partial order (`<`, `<=`), the total order of
//! `f32::total_cmp`, and `f32::clamp` to `[0, 1]`.
use vstd::prelude::*;

verus! {

/// The bit pattern of an `f32` value.
#[derive(Clone, Copy, Debug, PartialEq, Eq, Structural)]
pub struct F32Bits(pub u32);

/// `0.0`
pub const F32_ZERO: u32 = 0;

/// `1.0`
pub const F32_ONE: u32 = 0x3f80_0000;

/// The magnitude bits (all but the sign bit).
pub open spec fn magnitude(b: u32) -> int {
    b as int % 0x8000_0000
}

/// NaN: exponent all ones and a non-zero mantissa.
pub open spec fn is_nan(b: u32) -> bool {
    magnitude(b) > 0x7f80_0000
}

/// Positive or negative zero.
pub open spec fn is_zero(b: u32) -> bool {
    magnitude(b) == 0
}

/// The integer by which `f32::total_cmp` orders bit patterns: non-negative
/// patterns keep their value, negative ones count down from `-1`.
pub open spec fn total_key(b: u32) -> int {
    if b < 0x8000_0000 {
        b as int
    } else {
        0x7fff_ffff - b as int
    }
}

/// IEEE `a < b`: false when either side is NaN; the two zeros are equal.
pub open spec fn spec_f32_lt(a: u32, b: u32) -> bool {
    !is_nan(a) && !is_nan(b) && !(is_zero(a) && is_zero(b)) && total_key(a) < total_key(b)
}

/// IEEE `a <= b`: false when either side is NaN; the two zeros are equal.
pub open spec fn spec_f32_le(a: u32, b: u32) -> bool {
    !is_nan(a) && !is_nan(b) && (is_zero(a) && is_zero(b) || total_key(a) <= total_key(b))
}

/// `x.clamp(0.0, 1.0)`: `1.0` above one, `0.0` below zero, `x` otherwise (NaN
/// and `-0.0` included).
pub open spec fn spec_clamp01(x: u32) -> u32 {
    if spec_f32_lt(F32_ONE, x) {
        F32_ONE
    } else if spec_f32_lt(x, F32_ZERO) {
        F32_ZERO
    } else {
        x
    }
}

impl F32Bits {
    /// The total-order key of this value.
    pub open spec fn key(self) -> int {
        total_key(self.0)
    }

    /// `self < other` in the IEEE partial order.
    pub fn lt(self, other: F32Bits) -> (r: bool)
        ensures
            r == spec_f32_lt(self.0, other.0),
    {
        let ma = self.0 % 0x8000_0000;
        let mb = other.0 % 0x8000_0000;
        if ma > 0x7f80_0000 || mb > 0x7f80_0000 || (ma == 0 && mb == 0) {
            false
        } else {
            total_lt(self.0, other.0)
        }
    }

    /// `self <= other` in the IEEE partial order.
    pub fn le(self, other: F32Bits) -> (r: bool)
        ensures
            r == spec_f32_le(self.0, other.0),
    {
        let ma = self.0 % 0x8000_0000;
        let mb = other.0 % 0x8000_0000;
        if ma > 0x7f80_0000 || mb > 0x7f80_0000 {
            false
        } else if ma == 0 && mb == 0 {
            true
        } else {
            !total_lt(other.0, self.0)
        }
    }

    /// `self.total_cmp(other) == Less`.
    pub fn total_lt(self, other: F32Bits) -> (r: bool)
        ensures
            r == (self.key() < other.key()),
    {
        total_lt(self.0, other.0)
    }

    /// `self.clamp(0.0, 1.0)`.
    pub fn clamp01(self) -> (r: F32Bits)
        ensures
            r.0 == spec_clamp01(self.0),
    {
        if F32Bits(F32_ONE).lt(self) {
            F32Bits(F32_ONE)
        } else if self.lt(F32Bits(F32_ZERO)) {
            F32Bits(F32_ZERO)
        } else {
            self
        }
    }
}

fn total_lt(a: u32, b: u32) -> (r: bool)
    ensures
        r == (total_key(a) < total_key(b)),
{
    let a_neg = a >= 0x8000_0000;
    let b_neg = b >= 0x8000_0000;
    if a_neg && b_neg {
        b < a
    } else if a_neg {
        true
    } else if b_neg {
        false
    } else {
        a < b
    }
}

/// Clamping to `[0, 1]` leaves every non-NaN value inside `[0, 1]` and changes
/// nothing that is already there.
pub proof fn lemma_clamp01(x: u32)
    ensures
        !is_nan(x) ==> spec_f32_le(F32_ZERO, spec_clamp01(x)) && spec_f32_le(
            spec_clamp01(x),
            F32_ONE,
        ),
        spec_f32_le(F32_ZERO, x) && spec_f32_le(x, F32_ONE) ==> spec_clamp01(x) == x,
        spec_clamp01(spec_clamp01(x)) == spec_clamp01(x),
{
}

} // verus!
