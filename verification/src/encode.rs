//! The ADPCM frame encoder: a per-frame rate-distortion search over the 8
//! candidate predictors and the scale exponents, emitting header and packed
//! residual nibbles, with bit-exact in-loop reconstruction so that a decoder
//! reproduces the encoder's own history.

use vstd::arithmetic::div_mod::{
    lemma_div_is_ordered, lemma_div_is_ordered_by_denominator, lemma_div_pos_is_pos,
    lemma_fundamental_div_mod, lemma_fundamental_div_mod_converse, lemma_hoist_over_denominator,
    lemma_mod_division_less_than_divisor, lemma_mod_multiples_basic,
};
use vstd::arithmetic::mul::lemma_mul_is_commutative;
use vstd::arithmetic::power2::{lemma_pow2_pos, pow2};
use vstd::prelude::*;

use crate::decode::{
    lemma_decode_prefix_stable, lemma_sample_bytes_in_bounds, reconstruct_sample,
    scale_for_exponent, spec_data_nibble, spec_decoded_sample, spec_fixed_round,
    spec_frame_predictor, spec_frame_scale,
};
use crate::math::{
    clamp_16, clamp_4, combine_nibbles, sample_count_to_byte_count, spec_byte_count_to_sample_count,
    spec_clamp_i16, spec_clamp_i4, spec_sample_count_to_byte_count,
    spec_sample_count_to_nibble_count, spec_signed_nibble, DivideByRoundUp,
};
use crate::SAMPLES_PER_FRAME;

verus! {

/// Quotient `d / s` rounded to the nearest integer, ties away from zero, for
/// an even positive `s`.
pub open spec fn spec_round_half_away(d: int, s: int) -> int
    recommends
        s > 0,
        s % 2 == 0,
{
    if d >= 0 {
        (d + s / 2) / s
    } else {
        -((-d + s / 2) / s)
    }
}

/// The fixed-point prediction for sample `s` of a stream: the frame's
/// coefficient pair applied to the two previously decoded samples (zero
/// before the stream starts).
pub open spec fn spec_predicted(a: Seq<u8>, c: Seq<i16>, s: int) -> int
    recommends
        c.len() == 16,
        0 <= s,
{
    let header = a[(s / 14) * 8] as int;
    let c1 = c[2 * spec_frame_predictor(header)] as int;
    let c2 = c[2 * spec_frame_predictor(header) + 1] as int;
    let h1 = if s >= 1 {
        spec_decoded_sample(a, c, s - 1)
    } else {
        0
    };
    let h2 = if s >= 2 {
        spec_decoded_sample(a, c, s - 2)
    } else {
        0
    };
    c1 * h1 + c2 * h2
}

/// What the encoder guarantees of sample `s` of its output stream `a`: the
/// frame header carries a valid predictor index and exponent, and the stored
/// residual is the true prediction error against the decoded history,
/// quantized at the frame's scale with round-half-away-from-zero and
/// saturated to the 4-bit range.
pub open spec fn spec_residual_ok(a: Seq<u8>, c: Seq<i16>, pcm: Seq<i16>, s: int) -> bool
    recommends
        c.len() == 16,
        0 <= s < pcm.len(),
{
    let header = a[(s / 14) * 8] as int;
    &&& header / 16 < 8
    &&& header % 16 <= 12
    &&& spec_data_nibble(a, s) == spec_clamp_i4(
        spec_round_half_away(pcm[s] as int * 2048 - spec_predicted(a, c, s), spec_frame_scale(header)),
    )
}

/// The signed residual nibble `j` of one 8-byte frame, counted inside the
/// frame: nibble pairs packed high-first into the seven payload bytes.
pub open spec fn spec_frame_nibble(frame: Seq<u8>, j: int) -> int
    recommends
        0 <= j < 14,
        frame.len() == 8,
{
    let b = frame[1 + j / 2] as int;
    if j % 2 == 0 {
        spec_signed_nibble(b / 16)
    } else {
        spec_signed_nibble(b % 16)
    }
}

/// Truncating division of a 2048-scaled product, as the scale-estimation pass
/// applies it.
fn truncating_div_2048(acc: i64) -> (r: i64)
    requires
        -4611686018427387904 <= acc <= 4611686018427387904,
    ensures
        r == if acc >= 0 {
            acc as int / 2048
        } else {
            -((-acc) as int / 2048)
        },
        -2251799813685248 <= r <= 2251799813685248,
{
    if acc >= 0 {
        proof {
            lemma_div_is_ordered(acc as int, 4611686018427387904, 2048);
        }
        acc / 2048
    } else {
        proof {
            lemma_div_is_ordered(-acc as int, 4611686018427387904, 2048);
        }
        -((-acc) / 2048)
    }
}

/// Encodes one 14-sample frame against a single predictor pair at a fixed
/// scale exponent. Returns the 14 quantized residuals, the 16-entry
/// reconstruction buffer (two history samples followed by the frame's decoded
/// samples), the accumulated squared reconstruction error, and the largest
/// quantizer overflow seen.
#[verifier::rlimit(30)]
fn encode_attempt(pcm_in: &Vec<i16>, coef_1: i16, coef_2: i16, exponent: u8) -> (r: (
    Vec<i8>,
    Vec<i16>,
    u64,
    i64,
))
    requires
        pcm_in@.len() == 16,
        exponent <= 12,
    ensures
        r.0@.len() == 14,
        r.1@.len() == 16,
        r.1@[0] == pcm_in@[0],
        r.1@[1] == pcm_in@[1],
        forall|j: int|
            0 <= j < 14 ==> r.0@[j] as int == spec_clamp_i4(
                spec_round_half_away(
                    pcm_in@[j + 2] as int * 2048 - (coef_1 as int * r.1@[j + 1] as int
                        + coef_2 as int * r.1@[j] as int),
                    2048 * pow2(exponent as nat) as int,
                ),
            ),
        forall|j: int|
            0 <= j < 14 ==> r.1@[j + 2] as int == spec_clamp_i16(
                spec_fixed_round(
                    coef_1 as int * r.1@[j + 1] as int + coef_2 as int * r.1@[j] as int + (2048
                        * pow2(exponent as nat) as int) * r.0@[j] as int,
                ),
            ),
        r.3 >= 0,
{
    let scale: i64 = scale_for_exponent(exponent);
    let half: i64 = scale / 2;
    let mut nibbles: Vec<i8> = Vec::new();
    let mut recon: Vec<i16> = Vec::new();
    recon.push(pcm_in[0]);
    recon.push(pcm_in[1]);
    let mut total_distance: u64 = 0;
    let mut max_overflow: i64 = 0;

    let mut j: usize = 0;
    while j < 14
        invariant
            0 <= j <= 14,
            nibbles@.len() == j,
            recon@.len() == j + 2,
            recon@[0] == pcm_in@[0],
            recon@[1] == pcm_in@[1],
            forall|i: int|
                0 <= i < j ==> nibbles@[i] as int == spec_clamp_i4(
                    spec_round_half_away(
                        pcm_in@[i + 2] as int * 2048 - (coef_1 as int * recon@[i + 1] as int
                            + coef_2 as int * recon@[i] as int),
                        2048 * pow2(exponent as nat) as int,
                    ),
                ),
            forall|i: int|
                0 <= i < j ==> recon@[i + 2] as int == spec_clamp_i16(
                    spec_fixed_round(
                        coef_1 as int * recon@[i + 1] as int + coef_2 as int * recon@[i] as int + (
                        2048 * pow2(exponent as nat) as int) * nibbles@[i] as int,
                    ),
                ),
            total_distance <= j * 4294836225,
            max_overflow >= 0,
        decreases 14 - j,
    {
        proof {
            assert(-1073741824 <= recon@[j as int] as int * coef_2 as int <= 1073741824)
                by (nonlinear_arith)
                requires
                    -32768 <= recon@[j as int] as int <= 32767,
                    -32768 <= coef_2 as int <= 32767,
            ;
            assert(-1073741824 <= recon@[j + 1] as int * coef_1 as int <= 1073741824)
                by (nonlinear_arith)
                requires
                    -32768 <= recon@[j + 1] as int <= 32767,
                    -32768 <= coef_1 as int <= 32767,
            ;
        }
        let predicted: i64 = recon[j] as i64 * coef_2 as i64 + recon[j + 1] as i64 * coef_1 as i64;
        proof {
            lemma_mul_is_commutative(recon@[j as int] as int, coef_2 as int);
            lemma_mul_is_commutative(recon@[j + 1] as int, coef_1 as int);
        }
        let input_sample: i64 = pcm_in[j + 2] as i64 * 2048;
        let distance: i64 = input_sample - predicted;

        let unclamped: i64 = if distance >= 0 {
            proof {
                lemma_div_pos_is_pos(distance + half, scale as int);
                lemma_div_is_ordered_by_denominator(distance + half, 2048, scale as int);
                lemma_div_is_ordered(distance + half, 2248146944, 2048);
            }
            (distance + half) / scale
        } else {
            proof {
                lemma_div_pos_is_pos(-distance + half, scale as int);
                lemma_div_is_ordered_by_denominator(-distance + half, 2048, scale as int);
                lemma_div_is_ordered(-distance + half, 2248146944, 2048);
            }
            -((-distance + half) / scale)
        };
        assert(-1097728 <= unclamped <= 1097728);
        assert(unclamped == spec_round_half_away(distance as int, scale as int));

        let adpcm_sample: i8 = clamp_4(unclamped as i32);
        assert(adpcm_sample as int == spec_clamp_i4(unclamped as int));

        let diff: i64 = unclamped - adpcm_sample as i64;
        let overflow: i64 = if diff >= 0 {
            diff
        } else {
            -diff
        };
        if overflow > max_overflow {
            max_overflow = overflow;
        }

        let decoded: i16 = reconstruct_sample(coef_1, coef_2, recon[j + 1], recon[j], scale, adpcm_sample);

        let err: i64 = pcm_in[j + 2] as i64 - decoded as i64;
        proof {
            assert(0 <= err * err <= 4294836225) by (nonlinear_arith)
                requires
                    -65535 <= err as int <= 65535,
            ;
        }
        let sq: u64 = (err * err) as u64;
        total_distance = total_distance + sq;

        nibbles.push(adpcm_sample);
        recon.push(decoded);
        j = j + 1;
    }

    (nibbles, recon, total_distance, max_overflow)
}

/// Runs the two-pass scale search of the encoder for one predictor pair:
/// estimate a starting exponent from the unquantized prediction error, then
/// re-encode at increasing exponents until the quantizer overflow is small,
/// never exceeding exponent 12. Returns residuals, reconstruction, the chosen
/// exponent, and the accumulated squared error used for predictor selection.
fn dsp_encode_coefficient(pcm_in: &Vec<i16>, coef_1: i16, coef_2: i16) -> (r: (
    Vec<i8>,
    Vec<i16>,
    u8,
    u64,
))
    requires
        pcm_in@.len() == 16,
    ensures
        r.0@.len() == 14,
        r.1@.len() == 16,
        r.1@[0] == pcm_in@[0],
        r.1@[1] == pcm_in@[1],
        r.2 <= 12,
        forall|j: int|
            0 <= j < 14 ==> r.0@[j] as int == spec_clamp_i4(
                spec_round_half_away(
                    pcm_in@[j + 2] as int * 2048 - (coef_1 as int * r.1@[j + 1] as int
                        + coef_2 as int * r.1@[j] as int),
                    2048 * pow2(r.2 as nat) as int,
                ),
            ),
        forall|j: int|
            0 <= j < 14 ==> r.1@[j + 2] as int == spec_clamp_i16(
                spec_fixed_round(
                    coef_1 as int * r.1@[j + 1] as int + coef_2 as int * r.1@[j] as int + (2048
                        * pow2(r.2 as nat) as int) * r.0@[j] as int,
                ),
            ),
{
    // Pass 1: the largest unquantized prediction error fixes a starting
    // exponent guess.
    let mut max_distance: i32 = 0;
    let mut j: usize = 0;
    while j < 14
        invariant
            0 <= j <= 14,
            -32768 <= max_distance <= 32767,
        decreases 14 - j,
    {
        proof {
            assert(-1073741824 <= pcm_in@[j as int] as int * coef_2 as int <= 1073741824)
                by (nonlinear_arith)
                requires
                    -32768 <= pcm_in@[j as int] as int <= 32767,
                    -32768 <= coef_2 as int <= 32767,
            ;
            assert(-1073741824 <= pcm_in@[j + 1] as int * coef_1 as int <= 1073741824)
                by (nonlinear_arith)
                requires
                    -32768 <= pcm_in@[j + 1] as int <= 32767,
                    -32768 <= coef_1 as int <= 32767,
            ;
        }
        let acc: i64 = pcm_in[j] as i64 * coef_2 as i64 + pcm_in[j + 1] as i64 * coef_1 as i64;
        let predicted: i64 = truncating_div_2048(acc);
        let distance_full: i64 = pcm_in[j + 2] as i64 - predicted;
        let distance: i16 = clamp_16(distance_full as i32);
        let magnitude: i32 = if distance < 0 {
            -(distance as i32)
        } else {
            distance as i32
        };
        let current: i32 = if max_distance < 0 {
            -max_distance
        } else {
            max_distance
        };
        if magnitude > current {
            max_distance = distance as i32;
        }
        j = j + 1;
    }

    let mut scale_power: i32 = 0;
    while scale_power <= 12 && (max_distance > 7 || max_distance < -8)
        invariant
            0 <= scale_power <= 13,
            -32768 <= max_distance <= 32767,
        decreases 13 - scale_power,
    {
        max_distance = if max_distance >= 0 {
            max_distance / 2
        } else {
            -((-max_distance) / 2)
        };
        scale_power = scale_power + 1;
    }
    scale_power = if scale_power <= 1 {
        -1
    } else {
        scale_power - 2
    };

    // Pass 2: re-encode at increasing exponents until the quantizer overflow
    // settles, as the iterative refinement loop does.
    let mut sp: i32 = scale_power + 1;
    let mut attempt = encode_attempt(pcm_in, coef_1, coef_2, sp as u8);
    let mut attempt_sp: i32 = sp;
    #[verifier::loop_isolation(true)]
    loop
        invariant_except_break
            0 <= sp <= 12,
            attempt_sp == sp,
            pcm_in@.len() == 16,
        invariant
            0 <= attempt_sp <= 12,
            attempt.0@.len() == 14,
            attempt.1@.len() == 16,
            attempt.1@[0] == pcm_in@[0],
            attempt.1@[1] == pcm_in@[1],
            forall|i: int|
                0 <= i < 14 ==> attempt.0@[i] as int == spec_clamp_i4(
                    spec_round_half_away(
                        pcm_in@[i + 2] as int * 2048 - (coef_1 as int * attempt.1@[i + 1] as int
                            + coef_2 as int * attempt.1@[i] as int),
                        2048 * pow2(attempt_sp as nat) as int,
                    ),
                ),
            forall|i: int|
                0 <= i < 14 ==> attempt.1@[i + 2] as int == spec_clamp_i16(
                    spec_fixed_round(
                        coef_1 as int * attempt.1@[i + 1] as int + coef_2 as int
                            * attempt.1@[i] as int + (2048 * pow2(attempt_sp as nat) as int)
                            * attempt.0@[i] as int,
                    ),
                ),
            attempt.3 >= 0,
        decreases 12 - sp,
    {
        let max_overflow: i64 = attempt.3;
        let mut x: i64 = max_overflow;
        let mut bumped: i32 = sp;
        while x > 256
            invariant
                0 <= bumped <= 12,
                sp < 12 ==> bumped >= sp,
                x >= 0,
            decreases x,
        {
            bumped = bumped + 1;
            if bumped >= 12 {
                bumped = 11;
            }
            x = x / 2;
        }
        if !(bumped < 12 && max_overflow > 1) {
            break;
        }
        if sp >= 12 {
            // The refinement can ask to retry exponent 12 indefinitely; every
            // terminating search ends here, so the exponent-12 attempt stands.
            break;
        }
        sp = if bumped > sp {
            bumped + 1
        } else {
            sp + 1
        };
        attempt = encode_attempt(pcm_in, coef_1, coef_2, sp as u8);
        attempt_sp = sp;
    }

    (attempt.0, attempt.1, attempt_sp as u8, attempt.2)
}

/// Packing two signed nibbles into a byte loses nothing: each reads back as
/// itself.
proof fn lemma_nibble_pack(hi: int, lo: int)
    requires
        -8 <= hi <= 7,
        -8 <= lo <= 7,
    ensures
        0 <= (hi % 16) * 16 + (lo % 16) <= 255,
        spec_signed_nibble(((hi % 16) * 16 + (lo % 16)) / 16) == hi,
        spec_signed_nibble(((hi % 16) * 16 + (lo % 16)) % 16) == lo,
{
    if hi >= 0 {
        lemma_fundamental_div_mod_converse(hi, 16, 0, hi);
    } else {
        lemma_fundamental_div_mod_converse(hi, 16, -1, hi + 16);
    }
    if lo >= 0 {
        lemma_fundamental_div_mod_converse(lo, 16, 0, lo);
    } else {
        lemma_fundamental_div_mod_converse(lo, 16, -1, lo + 16);
    }
    lemma_fundamental_div_mod_converse((hi % 16) * 16 + (lo % 16), 16, hi % 16, lo % 16);
}

/// A reconstruction buffer that satisfies a frame's decode recurrence against
/// the stream's own header and nibbles, seeded with the decoded history at
/// the frame boundary, holds exactly the decoded samples of that frame.
proof fn lemma_frame_reconstruction(a: Seq<u8>, c: Seq<i16>, recon: Seq<i16>, f: int, j: int)
    requires
        c.len() == 16,
        recon.len() == 16,
        f >= 0,
        0 <= j < 14,
        14 * f + j < spec_byte_count_to_sample_count(a.len() as int),
        recon[1] as int == if 14 * f >= 1 {
            spec_decoded_sample(a, c, 14 * f - 1)
        } else {
            0
        },
        recon[0] as int == if 14 * f >= 2 {
            spec_decoded_sample(a, c, 14 * f - 2)
        } else {
            0
        },
        forall|i: int|
            2 <= i <= j + 2 ==> (#[trigger] recon[i]) as int == spec_clamp_i16(
                spec_fixed_round(
                    c[2 * spec_frame_predictor(a[8 * f] as int)] as int * recon[i - 1] as int + c[2
                        * spec_frame_predictor(a[8 * f] as int) + 1] as int * recon[i - 2] as int
                        + spec_frame_scale(a[8 * f] as int) * spec_data_nibble(a, 14 * f + i - 2),
                ),
            ),
    ensures
        spec_decoded_sample(a, c, 14 * f + j) == recon[j + 2] as int,
    decreases j,
{
    if j >= 1 {
        lemma_frame_reconstruction(a, c, recon, f, j - 1);
    }
    if j >= 2 {
        lemma_frame_reconstruction(a, c, recon, f, j - 2);
    }
    let s = 14 * f + j;
    lemma_fundamental_div_mod_converse(s, 14, f, j);
    assert(s / 14 == f && s % 14 == j);
    let h1 = if s >= 1 {
        spec_decoded_sample(a, c, s - 1)
    } else {
        0int
    };
    let h2 = if s >= 2 {
        spec_decoded_sample(a, c, s - 2)
    } else {
        0int
    };
    assert(h1 == recon[j + 1] as int);
    assert(h2 == recon[j] as int);
}

/// Encodes one frame: runs the scale search for each of the 8 predictor
/// pairs, keeps the candidate with the smallest accumulated squared error
/// (the first such on a tie), and packs its header byte and 14 residual
/// nibbles into 8 bytes. Also returns the winning candidate's reconstruction
/// buffer, whose last two entries seed the next frame's history.
fn dsp_encode_frame(pcm_buffer: &Vec<i16>, coefficients: &[i16]) -> (r: (Vec<u8>, Vec<i16>))
    requires
        pcm_buffer@.len() == 16,
        coefficients@.len() == 16,
    ensures
        r.0@.len() == 8,
        r.1@.len() == 16,
        r.1@[0] == pcm_buffer@[0],
        r.1@[1] == pcm_buffer@[1],
        (r.0@[0] as int) / 16 < 8,
        (r.0@[0] as int) % 16 <= 12,
        forall|j: int|
            0 <= j < 14 ==> spec_frame_nibble(r.0@, j) == spec_clamp_i4(
                spec_round_half_away(
                    pcm_buffer@[j + 2] as int * 2048 - (coefficients@[2 * spec_frame_predictor(
                        r.0@[0] as int,
                    )] as int * r.1@[j + 1] as int + coefficients@[2 * spec_frame_predictor(
                        r.0@[0] as int,
                    ) + 1] as int * r.1@[j] as int),
                    spec_frame_scale(r.0@[0] as int),
                ),
            ),
        forall|j: int|
            0 <= j < 14 ==> r.1@[j + 2] as int == spec_clamp_i16(
                spec_fixed_round(
                    coefficients@[2 * spec_frame_predictor(r.0@[0] as int)] as int
                        * r.1@[j + 1] as int + coefficients@[2 * spec_frame_predictor(
                        r.0@[0] as int,
                    ) + 1] as int * r.1@[j] as int + spec_frame_scale(r.0@[0] as int)
                        * spec_frame_nibble(r.0@, j),
                ),
            ),
{
    let mut best = dsp_encode_coefficient(pcm_buffer, coefficients[0], coefficients[1]);
    let mut best_index: usize = 0;
    let mut i: usize = 1;
    while i < 8
        invariant
            1 <= i <= 8,
            best_index < i,
            best.0@.len() == 14,
            best.1@.len() == 16,
            best.1@[0] == pcm_buffer@[0],
            best.1@[1] == pcm_buffer@[1],
            best.2 <= 12,
            forall|j: int|
                0 <= j < 14 ==> best.0@[j] as int == spec_clamp_i4(
                    spec_round_half_away(
                        pcm_buffer@[j + 2] as int * 2048 - (coefficients@[2 * best_index] as int
                            * best.1@[j + 1] as int + coefficients@[2 * best_index + 1] as int
                            * best.1@[j] as int),
                        2048 * pow2(best.2 as nat) as int,
                    ),
                ),
            forall|j: int|
                0 <= j < 14 ==> best.1@[j + 2] as int == spec_clamp_i16(
                    spec_fixed_round(
                        coefficients@[2 * best_index] as int * best.1@[j + 1] as int
                            + coefficients@[2 * best_index + 1] as int * best.1@[j] as int + (2048
                            * pow2(best.2 as nat) as int) * best.0@[j] as int,
                    ),
                ),
        decreases 8 - i,
    {
        let candidate = dsp_encode_coefficient(
            pcm_buffer,
            coefficients[2 * i],
            coefficients[2 * i + 1],
        );
        if candidate.3 < best.3 {
            best = candidate;
            best_index = i;
        }
        i = i + 1;
    }

    let header: u8 = combine_nibbles(best_index as i32, best.2 as i32);
    proof {
        lemma_fundamental_div_mod_converse(best_index as int, 16, 0, best_index as int);
        lemma_fundamental_div_mod_converse(best.2 as int, 16, 0, best.2 as int);
        lemma_fundamental_div_mod_converse(
            (best_index as int) * 16 + best.2 as int,
            16,
            best_index as int,
            best.2 as int,
        );
        lemma_fundamental_div_mod_converse(best_index as int, 8, 0, best_index as int);
    }
    assert(header as int / 16 == best_index && header as int % 16 == best.2);
    assert(spec_frame_predictor(header as int) == best_index);

    let mut bytes: Vec<u8> = Vec::new();
    bytes.push(header);
    let mut k: usize = 0;
    while k < 7
        invariant
            0 <= k <= 7,
            bytes@.len() == 1 + k,
            bytes@[0] == header,
            forall|b: int|
                1 <= b < bytes@.len() ==> (#[trigger] bytes@[b]) as int == (best.0@[2 * (b - 1)] as int
                    % 16) * 16 + (best.0@[2 * (b - 1) + 1] as int % 16),
        decreases 7 - k,
    {
        bytes.push(combine_nibbles(best.0[2 * k] as i32, best.0[2 * k + 1] as i32));
        k = k + 1;
    }

    assert forall|j: int| 0 <= j < 14 implies spec_frame_nibble(bytes@, j) == best.0@[j] as int by {
        lemma_fundamental_div_mod(j, 2);
        let k2 = j / 2;
        lemma_nibble_pack(best.0@[2 * k2] as int, best.0@[2 * k2 + 1] as int);
        if j % 2 == 0 {
            assert(2 * k2 == j);
        } else {
            assert(2 * k2 + 1 == j);
        }
    }

    (bytes, best.1)
}

/// Byte bookkeeping for appending one frame of `stc` samples after `f` full
/// frames: how many bytes the frame takes, that the grown stream carries all
/// its samples, and that the grown stream's length is exactly the byte count
/// of the grown sample count.
proof fn lemma_frame_append_geometry(f: int, stc: int)
    requires
        f >= 0,
        1 <= stc <= 14,
    ensures
        2 <= spec_sample_count_to_byte_count(stc) <= 8,
        stc == 14 ==> spec_sample_count_to_byte_count(stc) == 8,
        (stc - 1) / 2 + 2 <= spec_sample_count_to_byte_count(stc),
        spec_byte_count_to_sample_count(8 * f + spec_sample_count_to_byte_count(stc)) >= 14 * f
            + stc,
        spec_sample_count_to_byte_count(14 * f + stc) == 8 * f + spec_sample_count_to_byte_count(
            stc,
        ),
{
    let nib = spec_sample_count_to_nibble_count(stc);
    if stc == 14 {
        lemma_fundamental_div_mod_converse(14, 14, 1, 0);
        assert(nib == 16);
    } else {
        lemma_fundamental_div_mod_converse(stc, 14, 0, stc);
        assert(nib == stc + 2);
    }
    let btc = spec_sample_count_to_byte_count(stc);
    assert(btc == (nib + 1) / 2);
    lemma_div_is_ordered(4, nib + 1, 2);
    lemma_div_is_ordered(nib + 1, 17, 2);
    lemma_fundamental_div_mod(nib + 1, 2);
    let m = 2 * btc;
    assert(stc + 2 <= m <= 16);
    if m == 16 {
        lemma_fundamental_div_mod_converse(16 * f + 16, 16, f + 1, 0);
        assert(spec_byte_count_to_sample_count(8 * f + btc) == 14 * (f + 1));
    } else {
        lemma_fundamental_div_mod_converse(16 * f + m, 16, f, m);
        assert(spec_byte_count_to_sample_count(8 * f + btc) == 14 * f + (m - 2));
    }
    if stc == 14 {
        lemma_fundamental_div_mod_converse(14 * f + 14, 14, f + 1, 0);
        assert(spec_sample_count_to_nibble_count(14 * f + stc) == 16 * (f + 1));
        lemma_hoist_over_denominator(17, 8 * f, 2);
    } else {
        lemma_fundamental_div_mod_converse(14 * f + stc, 14, f, stc);
        assert(spec_sample_count_to_nibble_count(14 * f + stc) == 16 * f + stc + 2);
        lemma_hoist_over_denominator(stc + 3, 8 * f, 2);
    }
    lemma_hoist_over_denominator(stc - 1, 2, 2);
}

/// Extending a stream beyond whole frames changes nothing about the samples
/// those frames carry: they decode identically and keep their residual
/// correctness.
proof fn lemma_extend_stream_stable(prev: Seq<u8>, a_new: Seq<u8>, cc: Seq<i16>, pcm: Seq<i16>)
    requires
        cc.len() == 16,
        prev.len() <= a_new.len(),
        forall|i: int| 0 <= i < prev.len() ==> a_new[i] == prev[i],
    ensures
        forall|s: int|
            0 <= s < spec_byte_count_to_sample_count(prev.len() as int)
                ==> #[trigger] spec_decoded_sample(a_new, cc, s) == spec_decoded_sample(
                prev,
                cc,
                s,
            ),
        forall|s: int|
            0 <= s < spec_byte_count_to_sample_count(prev.len() as int) && 0 <= s < pcm.len()
                && spec_residual_ok(prev, cc, pcm, s) ==> #[trigger] spec_residual_ok(
                a_new,
                cc,
                pcm,
                s,
            ),
{
    let cap = spec_byte_count_to_sample_count(prev.len() as int);
    assert forall|s: int| 0 <= s < cap implies #[trigger] spec_decoded_sample(a_new, cc, s)
        == spec_decoded_sample(prev, cc, s) by {
        lemma_decode_prefix_stable(prev, a_new, cc, s);
    }
    assert forall|s: int|
        0 <= s < cap && 0 <= s < pcm.len() && spec_residual_ok(
            prev,
            cc,
            pcm,
            s,
        ) implies #[trigger] spec_residual_ok(a_new, cc, pcm, s) by {
        lemma_sample_bytes_in_bounds(prev.len() as int, s);
        lemma_div_pos_is_pos(s % 14, 2);
        assert((s / 14) * 8 < prev.len());
        assert(a_new[(s / 14) * 8] == prev[(s / 14) * 8]);
        lemma_decode_prefix_stable(prev, a_new, cc, s);
        if s >= 1 {
            lemma_decode_prefix_stable(prev, a_new, cc, s - 1);
        }
        if s >= 2 {
            lemma_decode_prefix_stable(prev, a_new, cc, s - 2);
        }
        assert(spec_predicted(a_new, cc, s) == spec_predicted(prev, cc, s));
        assert(spec_data_nibble(a_new, s) == spec_data_nibble(prev, s));
    }
}

/// Appending one encoded frame to the stream keeps every already-emitted
/// residual correct, makes the decode of the new samples equal the frame's
/// reconstruction buffer, and so makes the new residuals correct too.
#[verifier::rlimit(100)]
proof fn lemma_emit_frame(
    prev: Seq<u8>,
    a_new: Seq<u8>,
    cc: Seq<i16>,
    pcm: Seq<i16>,
    frame_bytes: Seq<u8>,
    frame_pcm: Seq<i16>,
    recon: Seq<i16>,
    fi: int,
    stc: int,
)
    requires
        cc.len() == 16,
        fi >= 0,
        14 * fi < pcm.len(),
        stc == if pcm.len() - 14 * fi < 14 {
            pcm.len() - 14 * fi
        } else {
            14int
        },
        prev.len() == 8 * fi,
        a_new.len() == prev.len() + spec_sample_count_to_byte_count(stc),
        forall|i: int| 0 <= i < prev.len() ==> a_new[i] == prev[i],
        forall|i: int| prev.len() <= i < a_new.len() ==> a_new[i] == frame_bytes[i - prev.len()],
        frame_bytes.len() == 8,
        frame_pcm.len() == 16,
        recon.len() == 16,
        frame_pcm[0] as int == if 14 * fi >= 2 {
            spec_decoded_sample(prev, cc, 14 * fi - 2)
        } else {
            0
        },
        frame_pcm[1] as int == if 14 * fi >= 1 {
            spec_decoded_sample(prev, cc, 14 * fi - 1)
        } else {
            0
        },
        forall|v: int|
            2 <= v < 16 ==> (#[trigger] frame_pcm[v]) as int == if 14 * fi + (v - 2) < pcm.len() {
                pcm[14 * fi + (v - 2)] as int
            } else {
                0
            },
        recon[0] == frame_pcm[0],
        recon[1] == frame_pcm[1],
        (frame_bytes[0] as int) / 16 < 8,
        (frame_bytes[0] as int) % 16 <= 12,
        forall|j: int|
            0 <= j < 14 ==> spec_frame_nibble(frame_bytes, j) == spec_clamp_i4(
                spec_round_half_away(
                    frame_pcm[j + 2] as int * 2048 - (cc[2 * spec_frame_predictor(
                        frame_bytes[0] as int,
                    )] as int * recon[j + 1] as int + cc[2 * spec_frame_predictor(
                        frame_bytes[0] as int,
                    ) + 1] as int * recon[j] as int),
                    spec_frame_scale(frame_bytes[0] as int),
                ),
            ),
        forall|j: int|
            0 <= j < 14 ==> recon[j + 2] as int == spec_clamp_i16(
                spec_fixed_round(
                    cc[2 * spec_frame_predictor(frame_bytes[0] as int)] as int
                        * recon[j + 1] as int + cc[2 * spec_frame_predictor(frame_bytes[0] as int)
                        + 1] as int * recon[j] as int + spec_frame_scale(frame_bytes[0] as int)
                        * spec_frame_nibble(frame_bytes, j),
                ),
            ),
        forall|s: int| 0 <= s < 14 * fi ==> spec_residual_ok(prev, cc, pcm, s),
    ensures
        forall|s: int|
            0 <= s < (if 14 * (fi + 1) <= pcm.len() {
                14 * (fi + 1)
            } else {
                pcm.len() as int
            }) ==> spec_residual_ok(a_new, cc, pcm, s),
        14 * (fi + 1) <= pcm.len() ==> recon[15] as int == spec_decoded_sample(
            a_new,
            cc,
            14 * (fi + 1) - 1,
        ),
        14 * (fi + 1) <= pcm.len() ==> recon[14] as int == spec_decoded_sample(
            a_new,
            cc,
            14 * (fi + 1) - 2,
        ),
{
    lemma_frame_append_geometry(fi, stc);
    assert(spec_byte_count_to_sample_count(a_new.len() as int) >= 14 * fi + stc);
    lemma_fundamental_div_mod_converse(16 * fi, 16, fi, 0);
    assert(spec_byte_count_to_sample_count(prev.len() as int) == 14 * fi);

    // Frames already emitted decode unchanged from the grown stream.
    lemma_extend_stream_stable(prev, a_new, cc, pcm);

    // The frame's nibbles read back from the stream as emitted.
    assert forall|j: int| 0 <= j < stc implies spec_data_nibble(a_new, 14 * fi + j)
        == spec_frame_nibble(frame_bytes, j) by {
        lemma_fundamental_div_mod_converse(14 * fi + j, 14, fi, j);
        lemma_div_is_ordered(j, stc - 1, 2);
        lemma_div_pos_is_pos(j, 2);
    }

    assert(a_new[8 * fi] == frame_bytes[0]);
    if 14 * fi >= 1 {
        assert(spec_decoded_sample(a_new, cc, 14 * fi - 1) == spec_decoded_sample(
            prev,
            cc,
            14 * fi - 1,
        ));
        assert(recon[1] as int == spec_decoded_sample(a_new, cc, 14 * fi - 1));
    }
    if 14 * fi >= 2 {
        assert(spec_decoded_sample(a_new, cc, 14 * fi - 2) == spec_decoded_sample(
            prev,
            cc,
            14 * fi - 2,
        ));
        assert(recon[0] as int == spec_decoded_sample(a_new, cc, 14 * fi - 2));
    }

    // The winning candidate's reconstruction is the decode of the grown
    // stream over this frame.
    assert forall|s: int| 14 * fi <= s < 14 * fi + stc implies #[trigger] spec_decoded_sample(
        a_new,
        cc,
        s,
    ) == recon[s - 14 * fi + 2] as int by {
        let jmax = s - 14 * fi;
        assert forall|i: int| 2 <= i <= jmax + 2 implies (#[trigger] recon[i]) as int
            == spec_clamp_i16(
            spec_fixed_round(
                cc[2 * spec_frame_predictor(a_new[8 * fi] as int)] as int * recon[i - 1] as int
                    + cc[2 * spec_frame_predictor(a_new[8 * fi] as int) + 1] as int * recon[i
                    - 2] as int + spec_frame_scale(a_new[8 * fi] as int) * spec_data_nibble(
                    a_new,
                    14 * fi + i - 2,
                ),
            ),
        ) by {
            assert(spec_data_nibble(a_new, 14 * fi + (i - 2)) == spec_frame_nibble(
                frame_bytes,
                i - 2,
            ));
            assert(recon[(i - 2) + 2] as int == spec_clamp_i16(
                spec_fixed_round(
                    cc[2 * spec_frame_predictor(frame_bytes[0] as int)] as int * recon[(i - 2)
                        + 1] as int + cc[2 * spec_frame_predictor(frame_bytes[0] as int)
                        + 1] as int * recon[i - 2] as int + spec_frame_scale(
                        frame_bytes[0] as int,
                    ) * spec_frame_nibble(frame_bytes, i - 2),
                ),
            ));
        }
        lemma_frame_reconstruction(a_new, cc, recon, fi, jmax);
    }

    // Residual correctness for the new samples.
    assert forall|s: int| 14 * fi <= s < 14 * fi + stc implies spec_residual_ok(
        a_new,
        cc,
        pcm,
        s,
    ) by {
        let j = s - 14 * fi;
        lemma_fundamental_div_mod_converse(s, 14, fi, j);
        assert(spec_data_nibble(a_new, s) == spec_frame_nibble(frame_bytes, j));
        assert(frame_pcm[j + 2] as int == pcm[s] as int);
        if j >= 1 {
            assert(spec_decoded_sample(a_new, cc, s - 1) == recon[j + 1] as int);
        }
        if j >= 2 {
            assert(spec_decoded_sample(a_new, cc, s - 2) == recon[j] as int);
        }
    }
}

/// Rounding to the nearest multiple, ties away from zero, lands within half
/// a step of the true value.
proof fn lemma_round_half_away_close(d: int, sc: int)
    requires
        sc >= 2,
        sc % 2 == 0,
    ensures
        -(sc / 2) <= sc * spec_round_half_away(d, sc) - d <= sc / 2,
{
    lemma_fundamental_div_mod(sc, 2);
    assert(sc == 2 * (sc / 2));
    if d >= 0 {
        let q = (d + sc / 2) / sc;
        let r = (d + sc / 2) % sc;
        lemma_fundamental_div_mod(d + sc / 2, sc);
        lemma_mod_division_less_than_divisor(d + sc / 2, sc);
        lemma_mul_is_commutative(sc, q);
        assert(spec_round_half_away(d, sc) == q);
        assert(sc * q - d == sc / 2 - r);
    } else {
        let q = (-d + sc / 2) / sc;
        let r = (-d + sc / 2) % sc;
        lemma_fundamental_div_mod(-d + sc / 2, sc);
        lemma_mod_division_less_than_divisor(-d + sc / 2, sc);
        lemma_mul_is_commutative(sc, q);
        assert(spec_round_half_away(d, sc) == -q);
        assert(sc * (-q) == -(sc * q)) by (nonlinear_arith);
        assert(sc * (-q) - d == r - sc / 2);
    }
}

/// Round-trip near-identity: wherever the encoder's quantizer did not clamp
/// (neither the 4-bit residual nor the 16-bit reconstruction), decoding the
/// encoded stream reproduces the original sample up to half the frame's
/// quantization step: the difference is at most `(scale / 2 + 1024) / 2048`,
/// about `2^exponent / 2` amplitude units.
pub proof fn lemma_round_trip_error_bound(a: Seq<u8>, c: Seq<i16>, pcm: Seq<i16>, s: int)
    requires
        c.len() == 16,
        0 <= s < pcm.len(),
        spec_residual_ok(a, c, pcm, s),
        -8 <= spec_round_half_away(
            pcm[s] as int * 2048 - spec_predicted(a, c, s),
            spec_frame_scale(a[(s / 14) * 8] as int),
        ) <= 7,
        -32768 <= spec_fixed_round(
            spec_predicted(a, c, s) + spec_frame_scale(a[(s / 14) * 8] as int) * spec_data_nibble(
                a,
                s,
            ),
        ) <= 32767,
    ensures
        spec_decoded_sample(a, c, s) - pcm[s] <= (spec_frame_scale(a[(s / 14) * 8] as int) / 2
            + 1024) / 2048,
        pcm[s] - spec_decoded_sample(a, c, s) <= (spec_frame_scale(a[(s / 14) * 8] as int) / 2
            + 1024) / 2048,
{
    let header = a[(s / 14) * 8] as int;
    let scale = spec_frame_scale(header);
    let p = pcm[s] as int;
    let pred = spec_predicted(a, c, s);
    let resid = p * 2048 - pred;
    let nib = spec_data_nibble(a, s);

    lemma_pow2_pos((header % 16) as nat);
    assert(scale >= 2048);
    assert(scale % 2 == 0) by {
        lemma_mod_multiples_basic(1024 * pow2((header % 16) as nat) as int, 2);
        lemma_mul_is_commutative(1024 * pow2((header % 16) as nat) as int, 2);
    }
    let h = scale / 2;

    // The stored nibble is the unclamped rounding of the true residual.
    assert(nib == spec_round_half_away(resid, scale));
    lemma_round_half_away_close(resid, scale);
    let e = scale * nib - resid;
    assert(-h <= e <= h);

    // The reconstruction is the rounded prediction-plus-residual, unclamped.
    let inner = pred + scale * nib;
    assert(spec_decoded_sample(a, c, s) == spec_clamp_i16(spec_fixed_round(inner)));
    assert(spec_decoded_sample(a, c, s) == spec_fixed_round(inner));
    assert(inner == 2048 * p + e);

    // Divide out the fixed-point factor.
    lemma_hoist_over_denominator(e + 1024, p, 2048);
    assert(spec_fixed_round(inner) - p == (e + 1024) / 2048);
    let bound = (h + 1024) / 2048;
    lemma_div_is_ordered(e + 1024, h + 1024, 2048);
    assert((e + 1024) / 2048 <= bound);
    assert(-bound <= (e + 1024) / 2048) by {
        lemma_div_is_ordered(1024 - h, e + 1024, 2048);
        lemma_fundamental_div_mod(1024 - h, 2048);
        lemma_fundamental_div_mod(h + 1024, 2048);
    }
}

/// Encodes PCM samples into a GC-ADPCM stream against the 16-entry predictor
/// table `coefficients`. The output length follows from the sample count
/// alone, and every stored residual is the true prediction error against the
/// stream's own decoded history, quantized at the frame's scale: see
/// `spec_residual_ok`.
pub fn encode_gc_adpcm(pcm: &[i16], coefficients: &[i16]) -> (adpcm: Vec<u8>)
    requires
        coefficients@.len() == 16,
        spec_sample_count_to_nibble_count(pcm@.len() as int) <= usize::MAX,
    ensures
        adpcm@.len() == spec_sample_count_to_byte_count(pcm@.len() as int),
        forall|s: int| 0 <= s < pcm@.len() ==> spec_residual_ok(adpcm@, coefficients@, pcm@, s),
{
    let sample_count = pcm.len();
    let mut adpcm: Vec<u8> = Vec::new();
    if sample_count == 0 {
        return adpcm;
    }

    let frame_count = sample_count.divide_by_round_up(SAMPLES_PER_FRAME);
    proof {
        lemma_fundamental_div_mod(sample_count as int + 13, 14);
    }
    assert(14 * (frame_count - 1) < sample_count <= 14 * frame_count) by (nonlinear_arith)
        requires
            frame_count == (sample_count as int + 13) / 14,
            sample_count as int + 13 == 14 * frame_count + (sample_count as int + 13) % 14,
            0 <= (sample_count as int + 13) % 14 < 14,
            sample_count >= 1,
    ;

    let mut hist_1: i16 = 0;
    let mut hist_2: i16 = 0;
    let mut frame: usize = 0;

    while frame < frame_count
        invariant
            0 <= frame <= frame_count,
            adpcm@.len() == if 14 * frame <= sample_count {
                8 * frame as int
            } else {
                spec_sample_count_to_byte_count(sample_count as int)
            },
            14 * frame <= sample_count ==> hist_1 as int == if 14 * frame >= 1 {
                spec_decoded_sample(adpcm@, coefficients@, 14 * frame - 1)
            } else {
                0
            },
            14 * frame <= sample_count ==> hist_2 as int == if 14 * frame >= 2 {
                spec_decoded_sample(adpcm@, coefficients@, 14 * frame - 2)
            } else {
                0
            },
            forall|s: int|
                0 <= s < (if 14 * frame <= sample_count {
                    14 * frame as int
                } else {
                    sample_count as int
                }) ==> spec_residual_ok(adpcm@, coefficients@, pcm@, s),
        decreases frame_count - frame,
    {
        proof {
            assert(14 * frame <= 14 * (frame_count - 1)) by (nonlinear_arith)
                requires
                    frame <= frame_count - 1,
            ;
        }
        let samples_to_copy: usize = if sample_count - frame * SAMPLES_PER_FRAME
            < SAMPLES_PER_FRAME {
            sample_count - frame * SAMPLES_PER_FRAME
        } else {
            SAMPLES_PER_FRAME
        };

        let mut frame_pcm: Vec<i16> = Vec::new();
        frame_pcm.push(hist_2);
        frame_pcm.push(hist_1);
        let mut t: usize = 0;
        while t < SAMPLES_PER_FRAME
            invariant
                0 <= t <= 14,
                frame_pcm@.len() == 2 + t,
                frame_pcm@[0] == hist_2,
                frame_pcm@[1] == hist_1,
                forall|v: int|
                    2 <= v < frame_pcm@.len() ==> (#[trigger] frame_pcm@[v]) as int == if 14 * frame
                        + (v - 2) < sample_count {
                        pcm@[14 * frame + (v - 2)] as int
                    } else {
                        0
                    },
            decreases 14 - t,
        {
            if frame * SAMPLES_PER_FRAME + t < sample_count {
                frame_pcm.push(pcm[frame * SAMPLES_PER_FRAME + t]);
            } else {
                frame_pcm.push(0i16);
            }
            t = t + 1;
        }

        let encoded = dsp_encode_frame(&frame_pcm, coefficients);
        let frame_bytes = encoded.0;
        let recon = encoded.1;

        proof {
            lemma_frame_append_geometry(frame as int, samples_to_copy as int);
        }
        let bytes_to_copy = sample_count_to_byte_count(samples_to_copy);

        let ghost prev = adpcm@;
        let mut k: usize = 0;
        while k < bytes_to_copy
            invariant
                0 <= k <= bytes_to_copy,
                bytes_to_copy <= 8,
                frame_bytes@.len() == 8,
                adpcm@.len() == prev.len() + k,
                forall|i: int| 0 <= i < prev.len() ==> #[trigger] adpcm@[i] == prev[i],
                forall|i: int|
                    prev.len() <= i < adpcm@.len() ==> #[trigger] adpcm@[i] == frame_bytes@[i
                        - prev.len()],
            decreases bytes_to_copy - k,
        {
            adpcm.push(frame_bytes[k]);
            k = k + 1;
        }

        proof {
            lemma_emit_frame(
                prev,
                adpcm@,
                coefficients@,
                pcm@,
                frame_bytes@,
                frame_pcm@,
                recon@,
                frame as int,
                samples_to_copy as int,
            );
        }

        hist_2 = recon[14];
        hist_1 = recon[15];
        frame = frame + 1;
    }

    proof {
        if 14 * frame as int == sample_count {
            lemma_frame_append_geometry(frame as int - 1, 14);
        }
    }
    adpcm
}

} // verus!
