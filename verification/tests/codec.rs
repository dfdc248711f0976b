use gc_adpcm::math::{
    byte_count_to_sample_count, clamp_16, clamp_4, combine_nibbles, get_next_multiple, high_nibble,
    high_nibble_signed, low_nibble, low_nibble_signed, sample_count_to_byte_count,
    sample_count_to_nibble_count, DivideByRoundUp,
};
use gc_adpcm::{decode_gc_adpcm, encode_gc_adpcm, Coefficients};

const ZERO_COEFS: [i16; 16] = [0; 16];

/// A predictor table whose first pair predicts "same as the previous sample".
const PREV_COEFS: [i16; 16] = [2048, 0, 0, 0, 0, 0, 0, 0, 0, 0, 0, 0, 0, 0, 0, 0];

#[test]
fn decode_empty_is_empty() {
    let pcm = decode_gc_adpcm(&[], &ZERO_COEFS);
    assert_eq!(pcm, Vec::<i16>::new());
    assert_eq!(byte_count_to_sample_count(0), 0);
}

#[test]
fn decode_single_frame_zero_predictor() {
    // Header: predictor 0, exponent 0 (scale 2048); one payload byte with
    // nibbles +7 and 0.
    let pcm = decode_gc_adpcm(&[0x00, 0x70], &ZERO_COEFS);
    assert_eq!(pcm, vec![7, 0]);
}

#[test]
fn decode_negative_nibble() {
    // High nibble 0x9 is the signed value -7.
    let pcm = decode_gc_adpcm(&[0x00, 0x90], &ZERO_COEFS);
    assert_eq!(pcm, vec![-7, 0]);
}

#[test]
fn decode_uses_prediction_history() {
    // With coefficient pair (2048, 0) the prediction is the previous sample,
    // so a single +7 residual followed by a zero residual holds the value.
    let pcm = decode_gc_adpcm(&[0x00, 0x70], &PREV_COEFS);
    assert_eq!(pcm, vec![7, 7]);
}

#[test]
fn decode_saturates_never_wraps() {
    // Exponent 12 gives the largest scale; repeated +7 residuals drive the
    // reconstruction over i16::MAX, where it must pin, not wrap.
    let adpcm = [0x0C, 0x77, 0x77, 0x77, 0x77, 0x77, 0x77, 0x77];
    let pcm = decode_gc_adpcm(&adpcm, &PREV_COEFS);
    assert_eq!(pcm.len(), 14);
    assert_eq!(pcm[0], 28672);
    for s in 1..14 {
        assert_eq!(pcm[s], 32767);
    }
}

#[test]
fn encode_length_follows_frame_geometry() {
    for &(samples, bytes) in
        &[(0usize, 0usize), (1, 2), (2, 2), (3, 3), (13, 8), (14, 8), (15, 10), (28, 16)]
    {
        let pcm = vec![100i16; samples];
        let adpcm = encode_gc_adpcm(&pcm, &PREV_COEFS);
        assert_eq!(adpcm.len(), bytes);
        assert_eq!(sample_count_to_byte_count(samples), bytes);
    }
}

#[test]
fn encode_silence_is_all_zero_bytes() {
    let pcm = vec![0i16; 28];
    let adpcm = encode_gc_adpcm(&pcm, &PREV_COEFS);
    assert_eq!(adpcm, vec![0u8; 16]);
    let back = decode_gc_adpcm(&adpcm, &PREV_COEFS);
    assert_eq!(back, pcm);
}

#[test]
fn encode_headers_are_well_formed() {
    let pcm: Vec<i16> = (0..140).map(|i| ((i * 373) % 20000 - 10000) as i16).collect();
    let adpcm = encode_gc_adpcm(&pcm, &PREV_COEFS);
    for frame in 0..adpcm.len() / 8 {
        let header = adpcm[frame * 8];
        assert!(header >> 4 < 8);
        assert!(header & 0xF <= 12);
    }
}

#[test]
fn round_trip_stays_within_quantization_noise() {
    // A smooth waveform encodes at small scales, so the reconstruction must
    // stay close to the input once the history has settled.
    let pcm: Vec<i16> = (0..140)
        .map(|i| {
            let x = i as f64 / 10.0;
            (1000.0 * (x.sin() + 0.5 * (3.0 * x).cos())) as i16
        })
        .collect();
    let adpcm = encode_gc_adpcm(&pcm, &PREV_COEFS);
    let back = decode_gc_adpcm(&adpcm, &PREV_COEFS);
    assert_eq!(back.len(), pcm.len());
    for s in 0..pcm.len() {
        let diff = (back[s] as i32 - pcm[s] as i32).abs();
        assert!(diff <= 256, "sample {}: {} vs {}", s, back[s], pcm[s]);
    }
}

#[test]
fn round_trip_of_reconstruction_is_exact() {
    // Re-encoding a decoded stream reproduces it exactly: the decoded signal
    // is already representable at the scales the encoder picks.
    let pcm: Vec<i16> = (0..56).map(|i| ((i * 997) % 4096 - 2048) as i16).collect();
    let first = decode_gc_adpcm(&encode_gc_adpcm(&pcm, &PREV_COEFS), &PREV_COEFS);
    let second = decode_gc_adpcm(&encode_gc_adpcm(&first, &PREV_COEFS), &PREV_COEFS);
    assert_eq!(first, second);
}

#[test]
fn clamps_saturate() {
    assert_eq!(clamp_16(40000), 32767);
    assert_eq!(clamp_16(-40000), -32768);
    assert_eq!(clamp_16(1234), 1234);
    assert_eq!(clamp_16(-32768), -32768);
    assert_eq!(clamp_4(9), 7);
    assert_eq!(clamp_4(-9), -8);
    assert_eq!(clamp_4(-8), -8);
    assert_eq!(clamp_4(3), 3);
}

#[test]
fn nibble_helpers() {
    assert_eq!(low_nibble(0xAB), 0xB);
    assert_eq!(high_nibble(0xAB), 0xA);
    assert_eq!(low_nibble_signed(0x0F), -1);
    assert_eq!(low_nibble_signed(0x07), 7);
    assert_eq!(high_nibble_signed(0x80), -8);
    assert_eq!(high_nibble_signed(0x70), 7);
    assert_eq!(combine_nibbles(0xA, 0xB), 0xAB);
    assert_eq!(combine_nibbles(-8, -1), 0x8F);
    assert_eq!(combine_nibbles(7, 12), 0x7C);
}

#[test]
fn frame_geometry_formulas() {
    assert_eq!(sample_count_to_nibble_count(0), 0);
    assert_eq!(sample_count_to_nibble_count(1), 3);
    assert_eq!(sample_count_to_nibble_count(14), 16);
    assert_eq!(sample_count_to_nibble_count(15), 19);
    assert_eq!(byte_count_to_sample_count(8), 14);
    assert_eq!(byte_count_to_sample_count(2), 2);
    assert_eq!(byte_count_to_sample_count(16), 28);
    assert_eq!(sample_count_to_byte_count(14), 8);
    assert_eq!(sample_count_to_byte_count(1), 2);
}

#[test]
fn rounding_division_helpers() {
    assert_eq!(10usize.divide_by_round_up(4), 3);
    assert_eq!(12usize.divide_by_round_up(4), 3);
    assert_eq!(0usize.divide_by_round_up(7), 0);
    assert_eq!(9usize.divide_by_2_round_up(), 5);
    assert_eq!(8usize.divide_by_2_round_up(), 4);
    assert_eq!(get_next_multiple(10, 4), 12);
    assert_eq!(get_next_multiple(12, 4), 12);
    assert_eq!(get_next_multiple(10, 0), 10);
}

#[test]
fn coefficients_wrap_a_table() {
    let table: [i16; 16] = [1, -2, 3, -4, 5, -6, 7, -8, 9, -10, 11, -12, 13, -14, 15, -16];
    let coefs = Coefficients::new(table);
    assert_eq!(coefs.coefs, table);
}
