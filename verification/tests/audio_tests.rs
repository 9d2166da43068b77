use express_trainer::audio::{low_latency_buffer_frames, wav_pcm16_bytes};

#[test]
fn low_latency_buffer_frames_is_100ms_equivalent() {
    assert_eq!(low_latency_buffer_frames(16_000, 1, u32::MAX), 1_600);
    assert_eq!(low_latency_buffer_frames(48_000, 1, u32::MAX), 4_800);
    assert_eq!(low_latency_buffer_frames(44_100, 1, u32::MAX), 4_410);
}

#[test]
fn low_latency_buffer_frames_clamps_to_device_range() {
    assert_eq!(low_latency_buffer_frames(16_000, 2_048, u32::MAX), 2_048);
    assert_eq!(low_latency_buffer_frames(48_000, 1, 1_000), 1_000);
    assert_eq!(low_latency_buffer_frames(8_000, 1, u32::MAX), 800);
}

#[test]
fn wav_pcm16_header_fields() {
    let bytes = wav_pcm16_bytes(&[0, 1, -1], 16_000);
    assert_eq!(bytes.len(), 44 + 6);
    assert_eq!(&bytes[0..4], b"RIFF");
    assert_eq!(&bytes[8..12], b"WAVE");
    assert_eq!(&bytes[12..16], b"fmt ");
    assert_eq!(u32::from_le_bytes(bytes[16..20].try_into().unwrap()), 16);
    assert_eq!(u16::from_le_bytes(bytes[20..22].try_into().unwrap()), 1);
    assert_eq!(u32::from_le_bytes(bytes[24..28].try_into().unwrap()), 16_000);
    assert_eq!(u32::from_le_bytes(bytes[28..32].try_into().unwrap()), 32_000);
    assert_eq!(u16::from_le_bytes(bytes[32..34].try_into().unwrap()), 2);
    assert_eq!(u16::from_le_bytes(bytes[34..36].try_into().unwrap()), 16);
    assert_eq!(&bytes[36..40], b"data");
    assert_eq!(u32::from_le_bytes(bytes[40..44].try_into().unwrap()), 6);
    assert_eq!(u32::from_le_bytes(bytes[4..8].try_into().unwrap()) as usize, bytes.len() - 8);
}

#[test]
fn wav_samples_are_little_endian_after_the_header() {
    let bytes = wav_pcm16_bytes(&[0x0102, -2], 8_000);
    assert_eq!(&bytes[44..48], &[0x02, 0x01, 0xFE, 0xFF]);
    assert_eq!(u32::from_le_bytes(bytes[28..32].try_into().unwrap()), 16_000);
}
