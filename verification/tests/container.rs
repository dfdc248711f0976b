use gc_adpcm::idsp::{
    deinterleave, interleave, ChannelMetadata, DecodeError, GcAdpcmContext, IdspContainer,
};
use gc_adpcm::{decode_gc_adpcm, encode_gc_adpcm, read_idsp_bytes, write_idsp_bytes};

const PREV_COEFS: [i16; 16] = [2048, 0, 0, 0, 0, 0, 0, 0, 0, 0, 0, 0, 0, 0, 0, 0];

fn sample_channel(start: u8, len: usize) -> Vec<u8> {
    (0..len).map(|i| start.wrapping_add(i as u8)).collect()
}

#[test]
fn interleave_deinterleave_round_trip() {
    let channels = vec![sample_channel(1, 10), sample_channel(101, 10)];
    let merged = interleave(&channels, 4, None);
    assert_eq!(merged.len(), 20);
    // Block 0 of each channel, then block 1, then the short final block.
    assert_eq!(&merged[0..4], &[1, 2, 3, 4]);
    assert_eq!(&merged[4..8], &[101, 102, 103, 104]);
    assert_eq!(&merged[8..12], &[5, 6, 7, 8]);
    assert_eq!(&merged[12..16], &[105, 106, 107, 108]);
    assert_eq!(&merged[16..18], &[9, 10]);
    assert_eq!(&merged[18..20], &[109, 110]);
    let split = deinterleave(&merged, 0, 20, 4, 2, None).unwrap();
    assert_eq!(split, channels);
}

#[test]
fn interleave_deinterleave_short_final_block() {
    let channels = vec![sample_channel(1, 7), sample_channel(51, 7), sample_channel(201, 7)];
    for il in 1..=8usize {
        let merged = interleave(&channels, il, None);
        assert_eq!(merged.len(), 21);
        let split = deinterleave(&merged, 0, 21, il, 3, None).unwrap();
        assert_eq!(split, channels, "interleave size {}", il);
    }
}

#[test]
fn interleave_pads_to_output_size() {
    let channels = vec![sample_channel(1, 3)];
    let merged = interleave(&channels, 4, Some(6));
    assert_eq!(merged, vec![1, 2, 3, 0, 0, 0]);
}

#[test]
fn deinterleave_rejects_bad_lengths() {
    let bytes = [0u8; 10];
    // Fewer bytes remain than the declared length.
    assert_eq!(deinterleave(&bytes, 0, 11, 4, 2, None), Err(DecodeError::InvalidAudioLength));
    // The length does not divide among the channels.
    assert_eq!(deinterleave(&bytes, 0, 9, 4, 2, None), Err(DecodeError::InvalidAudioLength));
}

#[test]
fn context_round_trips_through_bytes() {
    let ctx = GcAdpcmContext { predictor_scale: 0x17, hist_1: -1234, hist_2: 31000 };
    let mut buf: Vec<u8> = Vec::new();
    ctx.write_to_buf(&mut buf);
    assert_eq!(buf.len(), 6);
    let back = GcAdpcmContext::read_from_buf(&buf, 0);
    assert_eq!(back, ctx);
}

fn single_channel_container(pcm: &[i16]) -> (IdspContainer, Vec<u8>) {
    let audio = encode_gc_adpcm(pcm, &PREV_COEFS);
    let context = GcAdpcmContext { predictor_scale: 0, hist_1: 0, hist_2: 0 };
    let channel = ChannelMetadata {
        sample_count: pcm.len(),
        nibble_count: 2 * audio.len(),
        sample_rate: 32000,
        looping: false,
        start_address: 0,
        end_address: 0,
        current_address: 0,
        coefficients: PREV_COEFS,
        gain: 0,
        start_context: context,
        loop_context: context,
    };
    let container = IdspContainer {
        looping: false,
        channel_count: 1,
        sample_rate: 32000,
        loop_start: 0,
        loop_end: 0,
        sample_count: pcm.len(),
        audio_data_offset: 64 + 96,
        interleave_size: 0,
        header_size: 64,
        channel_info_size: 96,
        audio_data_length: audio.len(),
        channels: vec![channel],
        audio_data: vec![audio.clone()],
    };
    (container, audio)
}

#[test]
fn container_round_trip_single_channel() {
    let pcm: Vec<i16> = (0..28).map(|i| (i * 100 - 1400) as i16).collect();
    let (container, audio) = single_channel_container(&pcm);
    let bytes = write_idsp_bytes(&container).unwrap();
    let parsed = read_idsp_bytes(&bytes).unwrap();

    assert_eq!(parsed.channel_count, 1);
    assert_eq!(parsed.sample_rate, 32000);
    assert_eq!(parsed.sample_count, 28);
    assert_eq!(parsed.interleave_size, 0);
    assert_eq!(parsed.channels.len(), 1);
    assert_eq!(parsed.channels[0].coefficients, PREV_COEFS);
    assert_eq!(parsed.channels[0].sample_rate, 32000);
    assert!(!parsed.looping);
    assert_eq!(parsed.audio_data, vec![audio.clone()]);

    // The stored audio decodes back to what the original audio decodes to.
    let original = decode_gc_adpcm(&audio, &parsed.channels[0].coefficients);
    let reparsed = decode_gc_adpcm(&parsed.audio_data[0], &parsed.channels[0].coefficients);
    assert_eq!(original, reparsed);
}

#[test]
fn container_layout_fields() {
    let pcm: Vec<i16> = vec![500; 14];
    let (container, audio) = single_channel_container(&pcm);
    let bytes = write_idsp_bytes(&container).unwrap();
    assert_eq!(&bytes[0..4], b"IDSP");
    assert_eq!(bytes.len(), 64 + 96 + audio.len());
    // Stream header size and channel header size fields.
    assert_eq!(&bytes[32..36], &[0, 0, 0, 64]);
    assert_eq!(&bytes[36..40], &[0, 0, 0, 96]);
    // Channel-table offset.
    assert_eq!(&bytes[40..44], &[0, 0, 0, 160]);
}

#[test]
fn container_round_trip_two_channels_interleaved() {
    let left: Vec<i16> = (0..28).map(|i| (i * 50) as i16).collect();
    let right: Vec<i16> = (0..28).map(|i| (1000 - i * 30) as i16).collect();
    let audio_l = encode_gc_adpcm(&left, &PREV_COEFS);
    let audio_r = encode_gc_adpcm(&right, &PREV_COEFS);
    assert_eq!(audio_l.len(), 16);
    assert_eq!(audio_r.len(), 16);
    let context = GcAdpcmContext { predictor_scale: 0, hist_1: 0, hist_2: 0 };
    let channel = |audio: &Vec<u8>| ChannelMetadata {
        sample_count: 28,
        nibble_count: 2 * audio.len(),
        sample_rate: 32000,
        looping: false,
        start_address: 0,
        end_address: 0,
        current_address: 0,
        coefficients: PREV_COEFS,
        gain: 0,
        start_context: context,
        loop_context: context,
    };
    let container = IdspContainer {
        looping: false,
        channel_count: 2,
        sample_rate: 32000,
        loop_start: 0,
        loop_end: 0,
        sample_count: 28,
        audio_data_offset: 64 + 2 * 96,
        interleave_size: 4,
        header_size: 64,
        channel_info_size: 96,
        audio_data_length: 16,
        channels: vec![channel(&audio_l), channel(&audio_r)],
        audio_data: vec![audio_l.clone(), audio_r.clone()],
    };
    let bytes = write_idsp_bytes(&container).unwrap();
    let parsed = read_idsp_bytes(&bytes).unwrap();
    assert_eq!(parsed, container);
}

#[test]
fn read_rejects_bad_magic() {
    let bytes = [0u8; 64];
    assert_eq!(read_idsp_bytes(&bytes), Err(DecodeError::InvalidHeader));
    assert_eq!(read_idsp_bytes(b"IDS"), Err(DecodeError::InvalidHeader));
}

#[test]
fn read_rejects_truncated_streams() {
    // Magic alone, but no stream information.
    let mut bytes = vec![0u8; 10];
    bytes[0..4].copy_from_slice(b"IDSP");
    assert_eq!(read_idsp_bytes(&bytes), Err(DecodeError::InvalidAudioLength));

    // A valid container cut short in its audio region.
    let pcm: Vec<i16> = vec![100; 14];
    let (container, _) = single_channel_container(&pcm);
    let full = write_idsp_bytes(&container).unwrap();
    let truncated = &full[0..full.len() - 1];
    assert_eq!(read_idsp_bytes(truncated), Err(DecodeError::InvalidAudioLength));
}

#[test]
fn audio_data_len_rounds_to_interleave() {
    let pcm: Vec<i16> = vec![1; 14];
    let (mut container, audio) = single_channel_container(&pcm);
    assert_eq!(audio.len(), 8);
    container.interleave_size = 16;
    assert_eq!(container.audio_data_len(), 16);
    container.interleave_size = 0;
    assert_eq!(container.audio_data_len(), 8);
}
