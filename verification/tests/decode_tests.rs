use express_trainer::decode::{audio_format, missing_audio_msg, parse_wav_header, probe_wav_duration, AudioFormat};

fn build_wav(
    audio_format: u16,
    channels: u16,
    sample_rate: u32,
    bits: u16,
    data: &[u8],
    with_list: bool,
) -> Vec<u8> {
    let block_align = channels * (bits / 8);
    let byte_rate = sample_rate * block_align as u32;
    let mut fmt = Vec::new();
    fmt.extend_from_slice(&audio_format.to_le_bytes());
    fmt.extend_from_slice(&channels.to_le_bytes());
    fmt.extend_from_slice(&sample_rate.to_le_bytes());
    fmt.extend_from_slice(&byte_rate.to_le_bytes());
    fmt.extend_from_slice(&block_align.to_le_bytes());
    fmt.extend_from_slice(&bits.to_le_bytes());
    // Extensible 需要扩展区（cbSize=22 + valid_bits + mask + subformat GUID）
    if audio_format == 0xFFFE {
        fmt.extend_from_slice(&22u16.to_le_bytes());
        fmt.extend_from_slice(&bits.to_le_bytes());
        fmt.extend_from_slice(&0u32.to_le_bytes());
        let sub: u32 = 1; // KSDATAFORMAT_SUBTYPE_PCM
        fmt.extend_from_slice(&sub.to_le_bytes());
        fmt.extend_from_slice(&[0x00, 0x00, 0x10, 0x00, 0x80, 0x00, 0x00, 0xaa, 0x00, 0x38, 0x9b, 0x71]);
    }
    let mut body = Vec::new();
    body.extend_from_slice(b"fmt ");
    body.extend_from_slice(&(fmt.len() as u32).to_le_bytes());
    body.extend_from_slice(&fmt);
    if fmt.len() % 2 == 1 {
        body.push(0);
    }
    if with_list {
        let info = b"INFOISFT\x0d\x00\x00\x00Lavf60.3\x00\x00"; // 22 字节（偶数，无需填充）
        body.extend_from_slice(b"LIST");
        body.extend_from_slice(&(info.len() as u32).to_le_bytes());
        body.extend_from_slice(info);
    }
    body.extend_from_slice(b"data");
    body.extend_from_slice(&(data.len() as u32).to_le_bytes());
    body.extend_from_slice(data);
    let mut out = Vec::new();
    out.extend_from_slice(b"RIFF");
    out.extend_from_slice(&((body.len() + 4) as u32).to_le_bytes());
    out.extend_from_slice(b"WAVE");
    out.extend_from_slice(&body);
    out
}

#[test]
fn corrupt_wav_header_errors_in_chinese() {
    let err = parse_wav_header(b"RIFFxxxxgarbage!").unwrap_err();
    assert!(err.contains("wav 文件解析失败"), "{err}");
    let bytes = {
        let mut out = Vec::new();
        out.extend_from_slice(b"RIFF");
        out.extend_from_slice(&4u32.to_le_bytes());
        out.extend_from_slice(b"WAVE");
        out
    };
    let err = parse_wav_header(&bytes).unwrap_err();
    assert!(err.contains("缺少 fmt 块"), "{err}");
}

#[test]
fn duration_from_wav_header() {
    let data = vec![0u8; 32_000];
    let bytes = build_wav(1, 1, 16_000, 16, &data, false);
    let header = parse_wav_header(&bytes).unwrap();
    assert_eq!(header.duration_ms(), 1000);
}

#[test]
fn list_chunk_before_data_is_skipped() {
    let data = vec![0u8; 8_000];
    let bytes = build_wav(1, 2, 8_000, 16, &data, true);
    let header = parse_wav_header(&bytes).unwrap();
    assert_eq!(header.duration_ms(), 250);
}

#[test]
fn written_pcm16_file_reads_back() {
    let bytes = express_trainer::audio::wav_pcm16_bytes(&[1, 2, 3, 4], 16_000);
    let header = parse_wav_header(&bytes).unwrap();
    assert_eq!(header.duration_ms(), 0);
    let long = express_trainer::audio::wav_pcm16_bytes(&vec![0i16; 16_000], 16_000);
    assert_eq!(parse_wav_header(&long).unwrap().duration_ms(), 1000);
}

#[test]
fn audio_format_by_extension_ignores_ascii_case() {
    assert_eq!(audio_format(Some("wav")), Ok(AudioFormat::Wav));
    assert_eq!(audio_format(Some("WAVE")), Ok(AudioFormat::Wav));
    assert_eq!(audio_format(Some("Mp3")), Ok(AudioFormat::Other("mp3".to_string())));
    assert_eq!(audio_format(Some("M4A")), Ok(AudioFormat::Other("m4a".to_string())));
    let err = audio_format(Some("txt")).unwrap_err();
    assert_eq!(err, "暂不支持该格式（.txt），请将音频转为 wav 或 mp3 后再试");
    assert!(err.contains("wav 或 mp3"));
    let err = audio_format(None).unwrap_err();
    assert_eq!(err, "暂不支持该格式（文件没有扩展名），请将音频转为 wav 或 mp3 后再试");
}

#[test]
fn missing_file_message_names_the_path() {
    let m = missing_audio_msg("/tmp/ghost.wav");
    assert!(m.contains("找不到音频文件"));
    assert!(m.contains("/tmp/ghost.wav"));
}

#[test]
fn probe_wav_duration_reads_the_header_only() {
    let data = vec![0u8; 48_000];
    let bytes = build_wav(1, 1, 16_000, 16, &data, true);
    assert_eq!(probe_wav_duration(&bytes), Ok(1500));
    assert!(probe_wav_duration(b"not a wav file at all").unwrap_err().contains("wav 文件解析失败"));
}
