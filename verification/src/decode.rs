//! The ADPCM frame decoder.

use vstd::arithmetic::div_mod::{lemma_fundamental_div_mod, lemma_fundamental_div_mod_converse};
use vstd::arithmetic::power2::{lemma2_to64, lemma_pow2_pos, lemma_pow2_strictly_increases, pow2};
use vstd::bits::lemma_u64_shl_is_mul;
use vstd::prelude::*;

use crate::math::{
    byte_count_to_sample_count, clamp_16, high_nibble, high_nibble_signed, low_nibble,
    low_nibble_signed, spec_byte_count_to_sample_count, spec_clamp_i16, spec_signed_nibble,
    DivideByRoundUp,
};
use crate::SAMPLES_PER_FRAME;

verus! {

/// The predictor index carried by a frame header byte: the 3-bit field in the
/// high nibble.
pub open spec fn spec_frame_predictor(header: int) -> int {
    (header / 16) % 8
}

/// The quantization step selected by a frame header byte: `2048 << exponent`
/// for the exponent in the low nibble.
pub open spec fn spec_frame_scale(header: int) -> int {
    2048 * pow2((header % 16) as nat) as int
}

/// The signed 4-bit residual of sample `s` in the compressed stream: sample
/// `s % 14` of frame `s / 14`, stored high nibble first in the frame's seven
/// payload bytes.
pub open spec fn spec_data_nibble(adpcm: Seq<u8>, s: int) -> int
    recommends
        0 <= s,
{
    let f = s / 14;
    let j = s % 14;
    let byte = adpcm[f * 8 + 1 + j / 2] as int;
    if j % 2 == 0 {
        spec_signed_nibble(byte / 16)
    } else {
        spec_signed_nibble(byte % 16)
    }
}

/// The fixed-point rounding step of the reconstruction: divide a 2048-scaled
/// value by 2048, rounding to nearest (ties toward positive infinity).
pub open spec fn spec_fixed_round(v: int) -> int {
    (v + 1024) / 2048
}

/// Sample `s` of the stream decoded from `adpcm` with the predictor table
/// `coefs`: the predicted value from the previous two decoded samples (zero
/// before the stream starts) plus the scaled residual, rounded and saturated
/// to 16 bits.
pub open spec fn spec_decoded_sample(adpcm: Seq<u8>, coefs: Seq<i16>, s: int) -> int
    recommends
        coefs.len() == 16,
        0 <= s,
    decreases s,
{
    if s < 0 {
        0
    } else {
        let h1 = if s >= 1 {
            spec_decoded_sample(adpcm, coefs, s - 1)
        } else {
            0
        };
        let h2 = if s >= 2 {
            spec_decoded_sample(adpcm, coefs, s - 2)
        } else {
            0
        };
        let header = adpcm[(s / 14) * 8] as int;
        let c1 = coefs[2 * spec_frame_predictor(header)] as int;
        let c2 = coefs[2 * spec_frame_predictor(header) + 1] as int;
        let distance = spec_frame_scale(header) * spec_data_nibble(adpcm, s);
        spec_clamp_i16(spec_fixed_round(c1 * h1 + c2 * h2 + distance))
    }
}

/// The quantization step `2048 << exponent` for a header exponent nibble.
pub(crate) fn scale_for_exponent(exponent: u8) -> (r: i64)
    requires
        exponent <= 15,
    ensures
        r as int == 2048 * pow2(exponent as nat),
        0 < r <= 67108864,
{
    proof {
        lemma2_to64();
        lemma_pow2_pos(exponent as nat);
        if exponent < 15 {
            lemma_pow2_strictly_increases(exponent as nat, 15);
        }
        lemma_u64_shl_is_mul(1u64, exponent as u64);
    }
    ((1u64 << (exponent as u64)) as i64) * 2048
}

/// One step of the bit-exact reconstruction shared by the decoder and the
/// encoder's in-loop decode: predict from the two previous reconstructed
/// samples, add the scaled residual, round and saturate to 16 bits.
pub(crate) fn reconstruct_sample(
    coef_1: i16,
    coef_2: i16,
    hist_1: i16,
    hist_2: i16,
    scale: i64,
    nibble: i8,
) -> (r: i16)
    requires
        0 < scale <= 67108864,
        -8 <= nibble <= 7,
    ensures
        r as int == spec_clamp_i16(
            spec_fixed_round(
                coef_1 as int * hist_1 as int + coef_2 as int * hist_2 as int + scale * nibble,
            ),
        ),
{
    proof {
        assert(-8 * 67108864 <= scale * (nibble as int) <= 7 * 67108864) by (nonlinear_arith)
            requires
                0 < scale <= 67108864,
                -8 <= nibble as int <= 7,
        ;
        assert(-1073741824 <= coef_1 as int * hist_1 as int <= 1073741824) by (nonlinear_arith)
            requires
                -32768 <= coef_1 as int <= 32767,
                -32768 <= hist_1 as int <= 32767,
        ;
        assert(-1073741824 <= coef_2 as int * hist_2 as int <= 1073741824) by (nonlinear_arith)
            requires
                -32768 <= coef_2 as int <= 32767,
                -32768 <= hist_2 as int <= 32767,
        ;
    }
    let distance: i64 = scale * (nibble as i64);
    let predicted: i64 = coef_1 as i64 * hist_1 as i64 + coef_2 as i64 * hist_2 as i64;
    let corrected: i64 = predicted + distance;
    let t: i64 = corrected + 1024;
    let scaled: i64 = if t >= 0 {
        t / 2048
    } else {
        proof {
            lemma_fundamental_div_mod(2047 - t, 2048);
            lemma_fundamental_div_mod_converse(
                t as int,
                2048,
                -((2047 - t) / 2048),
                2047 - (2047 - t) % 2048,
            );
        }
        -((2047 - t) / 2048)
    };
    assert(scaled == spec_fixed_round(corrected as int));
    clamp_16(scaled as i32)
}

/// Every sample index below the decoded sample count reads its header and its
/// payload byte inside the stream.
pub(crate) proof fn lemma_sample_bytes_in_bounds(n: int, s: int)
    requires
        0 <= s < spec_byte_count_to_sample_count(n),
    ensures
        0 <= (s / 14) * 8,
        (s / 14) * 8 + 1 + (s % 14) / 2 < n,
{
    let f = s / 14;
    let j = s % 14;
    lemma_fundamental_div_mod(s, 14);
    lemma_fundamental_div_mod(n, 8);
    let big = n / 8;
    let r = n % 8;
    assert(2 * n == 16 * big + 2 * r);
    lemma_fundamental_div_mod_converse(2 * n, 16, big, 2 * r);
    assert(spec_byte_count_to_sample_count(n) == 14 * big + if 2 * r < 2 {
        0int
    } else {
        2 * r - 2
    });
    if f > big {
        assert(14 * f >= 14 * (big + 1)) by (nonlinear_arith)
            requires
                f >= big + 1,
        ;
        assert(false);
    }
    if f < big {
        assert(8 * f + 8 <= 8 * big) by (nonlinear_arith)
            requires
                f + 1 <= big,
        ;
    } else {
        assert(14 * f == 14 * big);
        assert(j < 2 * r - 2);
    }
}

/// Decoding reads no byte beyond a sample's own frame: a sample in range for
/// a stream prefix decodes the same from any extension of that prefix.
pub proof fn lemma_decode_prefix_stable(a1: Seq<u8>, a2: Seq<u8>, c: Seq<i16>, s: int)
    requires
        0 <= s < spec_byte_count_to_sample_count(a1.len() as int),
        a1.len() <= a2.len(),
        forall|i: int| 0 <= i < a1.len() ==> a1[i] == a2[i],
    ensures
        spec_data_nibble(a1, s) == spec_data_nibble(a2, s),
        spec_decoded_sample(a1, c, s) == spec_decoded_sample(a2, c, s),
    decreases s,
{
    lemma_sample_bytes_in_bounds(a1.len() as int, s);
    if s >= 1 {
        lemma_decode_prefix_stable(a1, a2, c, s - 1);
    }
    if s >= 2 {
        lemma_decode_prefix_stable(a1, a2, c, s - 2);
    }
    assert(0 <= (s % 14) / 2) by {
        lemma_fundamental_div_mod(s % 14, 2);
    }
    assert(a1[(s / 14) * 8] == a2[(s / 14) * 8]);
    assert(a1[(s / 14) * 8 + 1 + (s % 14) / 2] == a2[(s / 14) * 8 + 1 + (s % 14) / 2]);
}

/// Decodes a GC-ADPCM stream into PCM samples, using the 16-entry predictor
/// table `coefficients`. Total over any stream contents: the sample count
/// follows from the byte count alone, and every reconstructed sample is the
/// saturated fixed-point reconstruction described by `spec_decoded_sample`.
pub fn decode_gc_adpcm(adpcm: &[u8], coefficients: &[i16]) -> (pcm: Vec<i16>)
    requires
        coefficients@.len() == 16,
        adpcm@.len() <= usize::MAX / 2,
    ensures
        pcm@.len() == spec_byte_count_to_sample_count(adpcm@.len() as int),
        forall|s: int|
            0 <= s < pcm@.len() ==> pcm@[s] == spec_decoded_sample(adpcm@, coefficients@, s),
{
    let sample_count = byte_count_to_sample_count(adpcm.len());
    let mut pcm: Vec<i16> = Vec::new();

    if sample_count == 0 {
        return pcm;
    }

    let frame_count = sample_count.divide_by_round_up(SAMPLES_PER_FRAME);
    proof {
        lemma_fundamental_div_mod(sample_count as int + 13, 14);
    }
    assert(14 * (frame_count - 1) < sample_count <= 14 * frame_count) by (nonlinear_arith)
        requires
            frame_count == (sample_count as int + 13) / 14,
            sample_count as int + 13 == 14 * frame_count + (sample_count as int + 13) % 14,
            0 <= (sample_count as int + 13) % 14 < 14,
            sample_count >= 1,
    ;

    let mut in_index: usize = 0;
    let mut hist_1: i16 = 0;
    let mut hist_2: i16 = 0;
    let mut frame: usize = 0;

    while frame < frame_count
        invariant
            0 <= frame <= frame_count,
            pcm@.len() == if 14 * frame <= sample_count {
                14 * frame as int
            } else {
                sample_count as int
            },
            14 * frame <= sample_count ==> in_index == 8 * frame,
            forall|s: int|
                0 <= s < pcm@.len() ==> pcm@[s] == spec_decoded_sample(adpcm@, coefficients@, s),
            hist_1 as int == if pcm@.len() >= 1 {
                spec_decoded_sample(adpcm@, coefficients@, pcm@.len() - 1)
            } else {
                0
            },
            hist_2 as int == if pcm@.len() >= 2 {
                spec_decoded_sample(adpcm@, coefficients@, pcm@.len() - 2)
            } else {
                0
            },
        decreases frame_count - frame,
    {
        proof {
            assert(14 * frame <= 14 * (frame_count - 1)) by (nonlinear_arith)
                requires
                    frame <= frame_count - 1,
            ;
            lemma_sample_bytes_in_bounds(adpcm@.len() as int, 14 * frame as int);
            assert((14 * frame as int) / 14 == frame as int && (14 * frame as int) % 14 == 0) by {
                lemma_fundamental_div_mod_converse(14 * frame as int, 14, frame as int, 0);
            }
        }
        let ghost cs0: int = 14 * frame as int;
        let predictor_scale: u8 = adpcm[in_index];
        in_index = in_index + 1;

        let exponent: u8 = low_nibble(predictor_scale);
        let scale: i64 = scale_for_exponent(exponent);
        assert(scale == spec_frame_scale(predictor_scale as int));

        let predictor: u8 = high_nibble(predictor_scale) % 8;
        assert(predictor as int == spec_frame_predictor(predictor_scale as int));
        let coef_1: i16 = coefficients[2 * (predictor as usize)];
        let coef_2: i16 = coefficients[2 * (predictor as usize) + 1];

        let samples_to_read: usize = if SAMPLES_PER_FRAME < sample_count - (frame * SAMPLES_PER_FRAME) {
            SAMPLES_PER_FRAME
        } else {
            sample_count - frame * SAMPLES_PER_FRAME
        };

        let mut s: usize = 0;
        while s < samples_to_read
            invariant
                0 <= s <= samples_to_read,
                in_index == 8 * frame + 1 + s as int / 2,
                pcm@.len() == cs0 + s,
                forall|k: int|
                    0 <= k < pcm@.len() ==> pcm@[k] == spec_decoded_sample(
                        adpcm@,
                        coefficients@,
                        k,
                    ),
                hist_1 as int == if pcm@.len() >= 1 {
                    spec_decoded_sample(adpcm@, coefficients@, pcm@.len() - 1)
                } else {
                    0
                },
                hist_2 as int == if pcm@.len() >= 2 {
                    spec_decoded_sample(adpcm@, coefficients@, pcm@.len() - 2)
                } else {
                    0
                },
            decreases samples_to_read - s,
        {
            let ghost gs: int = cs0 + s as int;
            proof {
                lemma_sample_bytes_in_bounds(adpcm@.len() as int, gs);
                lemma_fundamental_div_mod_converse(gs, 14, frame as int, s as int);
            }
            let adpcm_sample: i8 = if s % 2 == 0 {
                high_nibble_signed(adpcm[in_index])
            } else {
                let sample = low_nibble_signed(adpcm[in_index]);
                in_index = in_index + 1;
                sample
            };

            let clamped_sample: i16 = reconstruct_sample(
                coef_1,
                coef_2,
                hist_1,
                hist_2,
                scale,
                adpcm_sample,
            );
            assert(clamped_sample as int == spec_decoded_sample(adpcm@, coefficients@, gs));

            hist_2 = hist_1;
            hist_1 = clamped_sample;
            pcm.push(clamped_sample);
            s = s + 1;
        }
        frame = frame + 1;
    }
    pcm
}

} // verus!
