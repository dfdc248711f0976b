//! Frame-geometry arithmetic and the saturating clamps of the codec.
//!
//! A frame holds `SAMPLES_PER_FRAME` (14) decoded samples in
//! `NIBBLES_PER_FRAME` (16) nibbles: two header nibbles followed by one data
//! nibble per sample, packed two nibbles to a byte.

use vstd::arithmetic::div_mod::{
    lemma_div_is_ordered, lemma_div_is_ordered_by_denominator, lemma_fundamental_div_mod,
    lemma_fundamental_div_mod_converse,
};
use vstd::arithmetic::mul::lemma_mul_is_commutative;
use vstd::prelude::*;

use crate::{NIBBLES_PER_FRAME, SAMPLES_PER_FRAME};

verus! {

/// Quotient of `x / d` rounded toward positive infinity.
pub open spec fn spec_div_round_up(x: int, d: int) -> int
    recommends
        x >= 0,
        d > 0,
{
    (x + d - 1) / d
}

/// Saturation of an intermediate value to the signed 16-bit sample range.
pub open spec fn spec_clamp_i16(v: int) -> int {
    if v > i16::MAX {
        i16::MAX as int
    } else if v < i16::MIN {
        i16::MIN as int
    } else {
        v
    }
}

/// Saturation of a residual to the signed 4-bit range carried by one nibble.
pub open spec fn spec_clamp_i4(v: int) -> int {
    if v > 7 {
        7
    } else if v < -8 {
        -8
    } else {
        v
    }
}

/// Two's-complement reading of a 4-bit value.
pub open spec fn spec_signed_nibble(n: int) -> int
    recommends
        0 <= n < 16,
{
    if n < 8 {
        n
    } else {
        n - 16
    }
}

/// Decoded samples described by `n` nibbles of stream data: full frames of 16
/// nibbles give 14 samples each; a trailing partial frame spends 2 nibbles on
/// its header and the rest on samples.
pub open spec fn spec_nibble_count_to_sample_count(n: int) -> int
    recommends
        n >= 0,
{
    let frames = n / 16;
    let extra_nibbles = n % 16;
    let extra_samples = if extra_nibbles < 2 {
        0
    } else {
        extra_nibbles - 2
    };
    14 * frames + extra_samples
}

/// Nibbles needed to encode `s` samples: 16 per full frame, and a partial
/// frame costs its sample count plus 2 header nibbles.
pub open spec fn spec_sample_count_to_nibble_count(s: int) -> int
    recommends
        s >= 0,
{
    let frames = s / 14;
    let extra_samples = s % 14;
    let extra_nibbles = if extra_samples == 0 {
        0
    } else {
        extra_samples + 2
    };
    16 * frames + extra_nibbles
}

/// Decoded samples described by a stream of `b` bytes.
pub open spec fn spec_byte_count_to_sample_count(b: int) -> int
    recommends
        b >= 0,
{
    spec_nibble_count_to_sample_count(2 * b)
}

/// Bytes needed to encode `s` samples: the nibble count rounded up to whole
/// bytes.
pub open spec fn spec_sample_count_to_byte_count(s: int) -> int
    recommends
        s >= 0,
{
    spec_div_round_up(spec_sample_count_to_nibble_count(s), 2)
}

/// `value` rounded up to the next multiple of `multiple`; a zero `multiple`
/// leaves the value unchanged.
pub open spec fn spec_get_next_multiple(value: int, multiple: int) -> int
    recommends
        value >= 0,
        multiple >= 0,
{
    if multiple == 0 || value % multiple == 0 {
        value
    } else {
        value + multiple - value % multiple
    }
}

/// An empty stream carries no samples, and no samples need no bytes.
pub proof fn lemma_empty_stream_counts()
    ensures
        spec_byte_count_to_sample_count(0) == 0,
        spec_sample_count_to_byte_count(0) == 0,
{
}

/// Saturation: a value outside the representable range is pinned to the
/// nearest bound, never wrapped, and a value in range passes unchanged; for
/// the 16-bit sample clamp and the 4-bit residual clamp alike.
pub proof fn lemma_clamp_saturates(v: int)
    ensures
        i16::MIN <= spec_clamp_i16(v) <= i16::MAX,
        v > i16::MAX ==> spec_clamp_i16(v) == i16::MAX,
        v < i16::MIN ==> spec_clamp_i16(v) == i16::MIN,
        i16::MIN <= v <= i16::MAX ==> spec_clamp_i16(v) == v,
        -8 <= spec_clamp_i4(v) <= 7,
        v > 7 ==> spec_clamp_i4(v) == 7,
        v < -8 ==> spec_clamp_i4(v) == -8,
        -8 <= v <= 7 ==> spec_clamp_i4(v) == v,
{
}

/// Ceiling division helpers on the machine word used for all counts.
pub trait DivideByRoundUp {
    /// The mathematical value of the dividend.
    spec fn spec_value(&self) -> int;

    /// Quotient rounded toward positive infinity.
    fn divide_by_round_up(&self, divisor: usize) -> (r: usize)
        requires
            divisor > 0,
        ensures
            r == spec_div_round_up(self.spec_value(), divisor as int),
    ;

    /// Halved, rounded toward positive infinity.
    fn divide_by_2_round_up(&self) -> (r: usize)
        ensures
            r == spec_div_round_up(self.spec_value(), 2),
    ;
}

/// Rounded-up division agrees with truncating division plus a correction for
/// a nonzero remainder.
pub(crate) proof fn lemma_div_round_up_parts(x: int, d: int)
    requires
        x >= 0,
        d > 0,
    ensures
        spec_div_round_up(x, d) == x / d + if x % d == 0 {
            0int
        } else {
            1int
        },
{
    lemma_fundamental_div_mod(x, d);
    let q = x / d;
    let r = x % d;
    lemma_mul_is_commutative(d, q);
    if r == 0 {
        lemma_fundamental_div_mod_converse(x + d - 1, d, q, d - 1);
    } else {
        assert((q + 1) * d == q * d + d) by (nonlinear_arith);
        lemma_fundamental_div_mod_converse(x + d - 1, d, q + 1, r - 1);
    }
}

impl DivideByRoundUp for usize {
    open spec fn spec_value(&self) -> int {
        *self as int
    }

    fn divide_by_round_up(&self, divisor: usize) -> (r: usize) {
        let q = *self / divisor;
        let rem = *self % divisor;
        proof {
            lemma_div_round_up_parts(*self as int, divisor as int);
            if rem != 0 {
                lemma_div_is_ordered_by_denominator(*self as int, 2, divisor as int);
                lemma_div_is_ordered(*self as int, usize::MAX as int, 2);
            }
        }
        if rem == 0 {
            q
        } else {
            q + 1
        }
    }

    fn divide_by_2_round_up(&self) -> (r: usize) {
        proof {
            lemma_div_round_up_parts(*self as int, 2);
        }
        (*self / 2) + (*self % 2)
    }
}

/// Saturates a 32-bit intermediate value to the 16-bit sample range.
pub fn clamp_16(value: i32) -> (r: i16)
    ensures
        r as int == spec_clamp_i16(value as int),
{
    if value > i16::MAX as i32 {
        return i16::MAX;
    }
    if value < i16::MIN as i32 {
        return i16::MIN;
    }
    value as i16
}

/// Saturates a 32-bit residual to the signed 4-bit range of a nibble.
pub fn clamp_4(value: i32) -> (r: i8)
    ensures
        r as int == spec_clamp_i4(value as int),
{
    if value > 7 {
        return 7;
    }
    if value < -8 {
        return -8;
    }
    value as i8
}

/// The low nibble of a byte.
pub fn low_nibble(byte: u8) -> (r: u8)
    ensures
        r == byte as int % 16,
{
    byte % 16
}

/// The high nibble of a byte.
pub fn high_nibble(byte: u8) -> (r: u8)
    ensures
        r == byte as int / 16,
{
    byte / 16
}

/// The low nibble of a byte, read as a signed 4-bit value.
pub fn low_nibble_signed(byte: u8) -> (r: i8)
    ensures
        r as int == spec_signed_nibble(byte as int % 16),
{
    let n = byte % 16;
    if n < 8 {
        n as i8
    } else {
        n as i8 - 16
    }
}

/// The high nibble of a byte, read as a signed 4-bit value.
pub fn high_nibble_signed(byte: u8) -> (r: i8)
    ensures
        r as int == spec_signed_nibble(byte as int / 16),
{
    let n = byte / 16;
    if n < 8 {
        n as i8
    } else {
        n as i8 - 16
    }
}

/// Packs two 4-bit values into one byte, the first in the high nibble. Each
/// input may be given as a signed (`-8..=7`) or unsigned (`0..=15`) nibble.
pub fn combine_nibbles(high: i32, low: i32) -> (r: u8)
    requires
        -8 <= high < 16,
        -8 <= low < 16,
    ensures
        r as int == (high as int % 16) * 16 + (low as int % 16),
{
    let h: i32 = if high < 0 {
        high + 16
    } else {
        high
    };
    let l: i32 = if low < 0 {
        low + 16
    } else {
        low
    };
    proof {
        if high < 0 {
            lemma_fundamental_div_mod_converse(high as int, 16, -1, high + 16);
        } else {
            lemma_fundamental_div_mod_converse(high as int, 16, 0, high as int);
        }
        if low < 0 {
            lemma_fundamental_div_mod_converse(low as int, 16, -1, low + 16);
        } else {
            lemma_fundamental_div_mod_converse(low as int, 16, 0, low as int);
        }
    }
    (h * 16 + l) as u8
}

/// Decoded samples described by a stream of `byte_count` bytes.
pub fn byte_count_to_sample_count(byte_count: usize) -> (r: usize)
    requires
        byte_count <= usize::MAX / 2,
    ensures
        r == spec_byte_count_to_sample_count(byte_count as int),
{
    nibble_count_to_sample_count(byte_count * 2)
}

/// Bytes needed to encode `sample_count` samples.
pub fn sample_count_to_byte_count(sample_count: usize) -> (r: usize)
    requires
        spec_sample_count_to_nibble_count(sample_count as int) <= usize::MAX,
    ensures
        r == spec_sample_count_to_byte_count(sample_count as int),
{
    sample_count_to_nibble_count(sample_count).divide_by_2_round_up()
}

/// Decoded samples described by `nibble_count` nibbles of stream data.
pub fn nibble_count_to_sample_count(nibble_count: usize) -> (r: usize)
    ensures
        r == spec_nibble_count_to_sample_count(nibble_count as int),
{
    let frames = nibble_count / NIBBLES_PER_FRAME;
    let extra_nibbles = nibble_count % NIBBLES_PER_FRAME;
    let extra_samples = if extra_nibbles < 2 {
        0
    } else {
        extra_nibbles - 2
    };
    proof {
        lemma_div_is_ordered(nibble_count as int, usize::MAX as int, 16);
    }
    SAMPLES_PER_FRAME * frames + extra_samples
}

/// Nibbles needed to encode `sample_count` samples.
pub fn sample_count_to_nibble_count(sample_count: usize) -> (r: usize)
    requires
        spec_sample_count_to_nibble_count(sample_count as int) <= usize::MAX,
    ensures
        r == spec_sample_count_to_nibble_count(sample_count as int),
{
    let frames = sample_count / SAMPLES_PER_FRAME;
    let extra_samples = sample_count % SAMPLES_PER_FRAME;
    let extra_nibbles = if extra_samples == 0 {
        0
    } else {
        extra_samples + 2
    };
    NIBBLES_PER_FRAME * frames + extra_nibbles
}

/// Rounds `value` up to the next multiple of `multiple`; a zero `multiple`
/// leaves the value unchanged.
pub fn get_next_multiple(value: usize, multiple: usize) -> (r: usize)
    requires
        spec_get_next_multiple(value as int, multiple as int) <= usize::MAX,
    ensures
        r == spec_get_next_multiple(value as int, multiple as int),
{
    if multiple == 0 || value % multiple == 0 {
        value
    } else {
        value + (multiple - value % multiple)
    }
}

} // verus!
