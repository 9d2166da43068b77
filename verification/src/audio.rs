//! Audio byte formats: the mono PCM16 WAV writer for session recordings and
//! the capture buffer sizing.
use vstd::prelude::*;

verus! {

/// Little-endian 2-byte encoding of `v` (taken modulo 2^16).
pub open spec fn le16(v: int) -> Seq<u8> {
    seq![(v % 256) as u8, (v / 256 % 256) as u8]
}

/// Little-endian 4-byte encoding of `v` (taken modulo 2^32).
pub open spec fn le32(v: int) -> Seq<u8> {
    seq![(v % 256) as u8, (v / 256 % 256) as u8, (v / 65536 % 256) as u8, (v / 16777216 % 256) as u8]
}

/// Two's-complement bit pattern of a 16-bit sample, as an unsigned value.
pub open spec fn i16_bits(s: i16) -> int {
    if s < 0 {
        s + 65536
    } else {
        s as int
    }
}

/// Sample bytes: each sample as little-endian two's complement, in order.
pub open spec fn pcm16_data(samples: Seq<i16>) -> Seq<u8>
    decreases samples.len(),
{
    if samples.len() == 0 {
        seq![]
    } else {
        pcm16_data(samples.drop_last()) + le16(i16_bits(samples.last()))
    }
}

/// The 44-byte RIFF/WAVE header of a mono 16-bit PCM file.
pub open spec fn wav_pcm16_header(n_samples: nat, sample_rate: u32) -> Seq<u8> {
    seq![82u8, 73u8, 70u8, 70u8] + le32(36 + 2 * n_samples as int) + seq![87u8, 65u8, 86u8, 69u8]
        + seq![102u8, 109u8, 116u8, 32u8] + le32(16) + le16(1) + le16(1) + le32(sample_rate as int)
        + le32(2 * sample_rate) + le16(2) + le16(16) + seq![100u8, 97u8, 116u8, 97u8]
        + le32(2 * n_samples as int)
}

/// A complete mono 16-bit PCM WAV file.
pub open spec fn wav_pcm16_file(samples: Seq<i16>, sample_rate: u32) -> Seq<u8> {
    wav_pcm16_header(samples.len(), sample_rate) + pcm16_data(samples)
}

fn push_le16(out: &mut Vec<u8>, v: u32)
    requires
        v < 65536,
    ensures
        final(out)@ == old(out)@ + le16(v as int),
{
    out.push((v % 256) as u8);
    out.push((v / 256 % 256) as u8);
    assert(final(out)@ =~= old(out)@ + le16(v as int));
}

fn push_le32(out: &mut Vec<u8>, v: u32)
    ensures
        final(out)@ == old(out)@ + le32(v as int),
{
    out.push((v % 256) as u8);
    out.push((v / 256 % 256) as u8);
    out.push((v / 65536 % 256) as u8);
    out.push((v / 16777216 % 256) as u8);
    assert(final(out)@ =~= old(out)@ + le32(v as int));
}

fn push_tag(out: &mut Vec<u8>, a: u8, b: u8, c: u8, d: u8)
    ensures
        final(out)@ == old(out)@ + seq![a, b, c, d],
{
    out.push(a);
    out.push(b);
    out.push(c);
    out.push(d);
    assert(final(out)@ =~= old(out)@ + seq![a, b, c, d]);
}

/// Complete bytes of a mono PCM16 WAV file (44-byte header followed by the
/// samples, little endian).
pub fn wav_pcm16_bytes(samples: &[i16], sample_rate: u32) -> (out: Vec<u8>)
    requires
        36 + 2 * samples@.len() <= u32::MAX,
        2 * sample_rate <= u32::MAX,
    ensures
        out@ == wav_pcm16_file(samples@, sample_rate),
{
    let n = samples.len();
    let data_len = (n * 2) as u32;
    let mut out: Vec<u8> = Vec::new();
    push_tag(&mut out, 82, 73, 70, 70);
    push_le32(&mut out, 36 + data_len);
    push_tag(&mut out, 87, 65, 86, 69);
    push_tag(&mut out, 102, 109, 116, 32);
    push_le32(&mut out, 16);
    push_le16(&mut out, 1);
    push_le16(&mut out, 1);
    push_le32(&mut out, sample_rate);
    push_le32(&mut out, sample_rate * 2);
    push_le16(&mut out, 2);
    push_le16(&mut out, 16);
    push_tag(&mut out, 100, 97, 116, 97);
    push_le32(&mut out, data_len);
    let ghost header = out@;
    assert(header =~= wav_pcm16_header(samples@.len(), sample_rate));
    let mut i: usize = 0;
    while i < n
        invariant
            n == samples@.len(),
            i <= n,
            out@ == header + pcm16_data(samples@.subrange(0, i as int)),
        decreases n - i,
    {
        let s = samples[i];
        let bits: u32 = if s < 0 { (s as i32 + 65536) as u32 } else { s as u32 };
        push_le16(&mut out, bits);
        proof {
            assert(samples@.subrange(0, i + 1).drop_last() =~= samples@.subrange(0, i as int));
            assert(samples@.subrange(0, i + 1).last() == s);
        }
        i = i + 1;
    }
    assert(samples@.subrange(0, n as int) =~= samples@);
    out
}

/// Target length of one capture buffer, in milliseconds.
pub const CAPTURE_BUFFER_MS: u32 = 100;

/// Frames in a 100 ms capture buffer at `sample_rate`, clamped into the
/// range the device supports (`u32::clamp`, which needs `min <= max`).
pub fn low_latency_buffer_frames(sample_rate: u32, min_frames: u32, max_frames: u32) -> (r: u32)
    requires
        min_frames <= max_frames,
        sample_rate * 100 <= u32::MAX,
    ensures
        r == (if sample_rate * 100 / 1000 < min_frames {
            min_frames as int
        } else if sample_rate * 100 / 1000 > max_frames {
            max_frames as int
        } else {
            sample_rate * 100 / 1000
        }),
{
    let frames = sample_rate * CAPTURE_BUFFER_MS / 1000;
    if frames < min_frames {
        min_frames
    } else if frames > max_frames {
        max_frames
    } else {
        frames
    }
}

} // verus!
