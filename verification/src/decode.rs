//! WAV (RIFF) header parsing: walks the chunks to find `fmt ` and `data`,
//! skipping unknown chunks and honouring the 2-byte chunk padding.
use vstd::prelude::*;
use crate::text::{dec, lit, push_dec, push_str};
use crate::audio::{le16, le32, pcm16_data, wav_pcm16_file, wav_pcm16_header};

verus! {

/// Little-endian u16 at `off`.
pub open spec fn u16_at(b: Seq<u8>, off: int) -> int {
    b[off] as int + 256 * b[off + 1]
}

/// Little-endian u32 at `off`.
pub open spec fn u32_at(b: Seq<u8>, off: int) -> int {
    b[off] as int + 256 * b[off + 1] + 65536 * b[off + 2] + 16777216 * b[off + 3]
}

/// Bytes `b[off..off + 4]` spell the four-byte tag `t`.
pub open spec fn tag_at(b: Seq<u8>, off: int, t: Seq<u8>) -> bool {
    0 <= off && off + 4 <= b.len() && b.subrange(off, off + 4) == t
}

pub open spec fn riff_tag() -> Seq<u8> {
    seq![82u8, 73u8, 70u8, 70u8]
}

pub open spec fn wave_tag() -> Seq<u8> {
    seq![87u8, 65u8, 86u8, 69u8]
}

pub open spec fn fmt_tag() -> Seq<u8> {
    seq![102u8, 109u8, 116u8, 32u8]
}

pub open spec fn data_tag() -> Seq<u8> {
    seq![100u8, 97u8, 116u8, 97u8]
}

/// The essentials of the `fmt ` chunk plus the location of the `data` chunk.
#[derive(Debug, Clone, Copy, PartialEq, Eq)]
pub struct WavHeader {
    /// 1 = PCM, 3 = IEEE float (an EXTENSIBLE header is resolved to its sub-format)
    pub audio_format: u16,
    pub channels: u16,
    pub sample_rate: u32,
    pub bits: u16,
    pub bytes_per_sample: usize,
    pub data_offset: usize,
    pub data_len: usize,
}

/// Full error text for a malformed WAV file, given the reason.
pub open spec fn wav_err_text(reason: Seq<char>) -> Seq<char> {
    "wav 文件解析失败："@ + reason + "；文件可能损坏，可尝试用其他工具重新导出为 wav 或 mp3"@
}

/// Reason given for a `fmt ` chunk with impossible parameters.
pub open spec fn bad_params_reason(channels: nat, sample_rate: nat, bits: nat) -> Seq<char> {
    "无效参数（声道 "@ + dec(channels) + "、采样率 "@ + dec(sample_rate) + "、位深 "@ + dec(bits) + "）"@
}

/// Result of reading a `fmt ` chunk of length `size` whose body starts at `body`.
pub open spec fn fmt_chunk(b: Seq<u8>, body: int, size: int) -> Result<WavHeader, Seq<char>> {
    if size < 16 {
        Err(wav_err_text("fmt 块过短"@))
    } else {
        let f0 = u16_at(b, body);
        let ch = u16_at(b, body + 2);
        let sr = u32_at(b, body + 4);
        let bits = u16_at(b, body + 14);
        let af = if f0 == 0xFFFE && size >= 40 { u32_at(b, body + 24) % 65536 } else { f0 };
        if ch == 0 || sr == 0 || bits == 0 || bits % 8 != 0 {
            Err(wav_err_text(bad_params_reason(ch as nat, sr as nat, bits as nat)))
        } else {
            Ok(WavHeader {
                audio_format: af as u16,
                channels: ch as u16,
                sample_rate: sr as u32,
                bits: bits as u16,
                bytes_per_sample: (bits / 8) as usize,
                data_offset: 0,
                data_len: 0,
            })
        }
    }
}

/// The chunk walk from `pos`: the last `fmt ` read and the last `data` found.
/// A `data` chunk cut short by the end of the file runs to the end; any other
/// cut-short chunk is an error. Odd chunk lengths are followed by one pad byte.
pub open spec fn walk(b: Seq<u8>, pos: int, fmt: Option<WavHeader>, data: Option<(int, int)>) -> Result<
    (Option<WavHeader>, Option<(int, int)>),
    Seq<char>,
>
    decreases b.len() + 1 - pos,
{
    if pos < 0 || pos + 8 > b.len() {
        Ok((fmt, data))
    } else {
        let size = u32_at(b, pos + 4);
        let body = pos + 8;
        if body + size > b.len() {
            if tag_at(b, pos, data_tag()) {
                Ok((fmt, Some((body, b.len() - body))))
            } else {
                Err(wav_err_text("文件在块中间被截断"@))
            }
        } else {
            match chunk_step(b, pos, fmt, data) {
                Err(e) => Err(e),
                Ok((f2, d2)) => {
                    proof {
                        assert(size >= 0);
                    }
                    walk(b, body + size + size % 2, f2, d2)
                },
            }
        }
    }
}

/// The state after reading one complete chunk at `pos`.
pub open spec fn chunk_step(b: Seq<u8>, pos: int, fmt: Option<WavHeader>, data: Option<(int, int)>) -> Result<
    (Option<WavHeader>, Option<(int, int)>),
    Seq<char>,
> {
    let size = u32_at(b, pos + 4);
    let body = pos + 8;
    if tag_at(b, pos, fmt_tag()) {
        match fmt_chunk(b, body, size) {
            Ok(h) => Ok((Some(h), data)),
            Err(e) => Err(e),
        }
    } else if tag_at(b, pos, data_tag()) {
        Ok((fmt, Some((body, size))))
    } else {
        Ok((fmt, data))
    }
}

/// What parsing a WAV file's bytes yields.
pub open spec fn wav_header_of(b: Seq<u8>) -> Result<WavHeader, Seq<char>> {
    if b.len() < 12 || !tag_at(b, 0, riff_tag()) || !tag_at(b, 8, wave_tag()) {
        Err(wav_err_text("不是有效的 wav（RIFF/WAVE）文件"@))
    } else {
        match walk(b, 12, None, None) {
            Err(e) => Err(e),
            Ok((f, d)) => match f {
                None => Err(wav_err_text("缺少 fmt 块"@)),
                Some(h) => match d {
                    None => Err(wav_err_text("缺少 data 块"@)),
                    Some((o, l)) => Ok(WavHeader { data_offset: o as usize, data_len: l as usize, ..h }),
                },
            },
        }
    }
}

impl WavHeader {
    /// Length of the data chunk in milliseconds (whole frames only; 0 when the
    /// frame size or the sample rate is 0).
    pub fn duration_ms(&self) -> (r: u64)
        requires
            self.data_len as int * 1000 <= u64::MAX,
            self.bytes_per_sample < 65536,
        ensures
            r == ({
                let block = (if self.channels == 0 { 1 } else { self.channels as int }) * self.bytes_per_sample;
                if block == 0 || self.sample_rate == 0 {
                    0
                } else {
                    (self.data_len as int / block) * 1000 / self.sample_rate as int
                }
            }),
    {
        let ch: u64 = if self.channels == 0 { 1 } else { self.channels as u64 };
        assert(ch * (self.bytes_per_sample as u64) < 65536 * 65536) by (nonlinear_arith)
            requires
                ch <= 65535,
                self.bytes_per_sample < 65536;
        let block = ch * self.bytes_per_sample as u64;
        if block == 0 || self.sample_rate == 0 {
            return 0;
        }
        let frames = self.data_len as u64 / block;
        assert(frames <= self.data_len) by (nonlinear_arith)
            requires
                frames == self.data_len as u64 / block,
                block >= 1;
        frames * 1000 / self.sample_rate as u64
    }
}

/// Error text for a malformed WAV file.
pub fn wav_err(reason: &str) -> (r: String)
    ensures
        r@ == wav_err_text(reason@),
{
    let mut s = lit("wav 文件解析失败：");
    push_str(&mut s, reason);
    push_str(&mut s, "；文件可能损坏，可尝试用其他工具重新导出为 wav 或 mp3");
    s
}

/// Little-endian u16 at `off`, if in bounds.
pub fn read_u16(b: &[u8], off: usize) -> (r: Option<u16>)
    ensures
        match r {
            Some(v) => off + 2 <= b@.len() && v == u16_at(b@, off as int),
            None => off + 2 > b@.len(),
        },
{
    if off > b.len() || b.len() - off < 2 {
        None
    } else {
        Some(b[off] as u16 + 256 * (b[off + 1] as u16))
    }
}

/// Little-endian u32 at `off`, if in bounds.
pub fn read_u32(b: &[u8], off: usize) -> (r: Option<u32>)
    ensures
        match r {
            Some(v) => off + 4 <= b@.len() && v == u32_at(b@, off as int),
            None => off + 4 > b@.len(),
        },
{
    if off > b.len() || b.len() - off < 4 {
        None
    } else {
        Some(b[off] as u32 + 256 * (b[off + 1] as u32) + 65536 * (b[off + 2] as u32) + 16777216 * (
        b[off + 3] as u32))
    }
}

fn tag_eq(b: &[u8], off: usize, t0: u8, t1: u8, t2: u8, t3: u8) -> (r: bool)
    requires
        off + 4 <= b@.len(),
    ensures
        r == tag_at(b@, off as int, seq![t0, t1, t2, t3]),
{
    let r = b[off] == t0 && b[off + 1] == t1 && b[off + 2] == t2 && b[off + 3] == t3;
    proof {
        let s = b@.subrange(off as int, off + 4);
        if r {
            assert(s =~= seq![t0, t1, t2, t3]);
        } else {
            if s == seq![t0, t1, t2, t3] {
                assert(s[0] == t0 && s[1] == t1 && s[2] == t2 && s[3] == t3);
            }
        }
    }
    r
}

fn bad_params(ch: u16, sr: u32, bits: u16) -> (r: String)
    ensures
        r@ == wav_err_text(bad_params_reason(ch as nat, sr as nat, bits as nat)),
{
    let mut reason = lit("无效参数（声道 ");
    push_dec(&mut reason, ch as u64);
    push_str(&mut reason, "、采样率 ");
    push_dec(&mut reason, sr as u64);
    push_str(&mut reason, "、位深 ");
    push_dec(&mut reason, bits as u64);
    push_str(&mut reason, "）");
    wav_err(reason.as_str())
}

fn read_fmt(b: &[u8], body: usize, size: usize) -> (r: Result<WavHeader, String>)
    requires
        body + size <= b@.len(),
    ensures
        match (r, fmt_chunk(b@, body as int, size as int)) {
            (Ok(h), Ok(g)) => h == g,
            (Err(e), Err(f)) => e@ == f,
            _ => false,
        },
{
    if size < 16 {
        return Err(wav_err("fmt 块过短"));
    }
    let f0 = b[body] as u16 + 256 * (b[body + 1] as u16);
    let ch = b[body + 2] as u16 + 256 * (b[body + 3] as u16);
    let sr = b[body + 4] as u32 + 256 * (b[body + 5] as u32) + 65536 * (b[body + 6] as u32)
        + 16777216 * (b[body + 7] as u32);
    let bits = b[body + 14] as u16 + 256 * (b[body + 15] as u16);
    let af = if f0 == 0xFFFE && size >= 40 {
        (b[body + 24] as u16) + 256 * (b[body + 25] as u16)
    } else {
        f0
    };
    if ch == 0 || sr == 0 || bits == 0 || bits % 8 != 0 {
        return Err(bad_params(ch, sr, bits));
    }
    Ok(
        WavHeader {
            audio_format: af,
            channels: ch,
            sample_rate: sr,
            bits,
            bytes_per_sample: (bits / 8) as usize,
            data_offset: 0,
            data_len: 0,
        },
    )
}

/// Parses the RIFF header: checks the RIFF/WAVE magic, then walks the chunks
/// for `fmt ` and `data` (unknown chunks such as LIST are skipped).
pub fn parse_wav_header(bytes: &[u8]) -> (r: Result<WavHeader, String>)
    ensures
        match (r, wav_header_of(bytes@)) {
            (Ok(h), Ok(g)) => h == g,
            (Err(e), Err(f)) => e@ == f,
            _ => false,
        },
{
    let len = bytes.len();
    if len < 12 || !tag_eq(bytes, 0, 82, 73, 70, 70) || !tag_eq(bytes, 8, 87, 65, 86, 69) {
        return Err(wav_err("不是有效的 wav（RIFF/WAVE）文件"));
    }
    let mut fmt: Option<WavHeader> = None;
    let mut data: Option<(usize, usize)> = None;
    let ghost mut gd: Option<(int, int)> = None;
    let mut pos: usize = 12;
    while pos <= len && len - pos >= 8
        invariant_except_break
            walk(bytes@, 12, None, None) == walk(bytes@, pos as int, fmt, gd),
        invariant
            len == bytes@.len(),
            12 <= pos <= len,
            tag_at(bytes@, 0, riff_tag()),
            tag_at(bytes@, 8, wave_tag()),
            gd == match data {
                Some((o, l)) => Some((o as int, l as int)),
                None => None::<(int, int)>,
            },
            match data {
                Some((o, l)) => o + l <= len,
                None => true,
            },
        ensures
            walk(bytes@, 12, None, None) == Ok::<(Option<WavHeader>, Option<(int, int)>), Seq<char>>((fmt, gd)),
        decreases len - pos,
    {
        let size = bytes[pos + 4] as usize + 256 * (bytes[pos + 5] as usize) + 65536 * (bytes[pos
            + 6] as usize) + 16777216 * (bytes[pos + 7] as usize);
        assert(size == u32_at(bytes@, pos + 4));
        let body = pos + 8;
        let is_data = tag_eq(bytes, pos, 100, 97, 116, 97);
        assert(is_data == tag_at(bytes@, pos as int, data_tag()));
        if size > len - body {
            assert(body + size > bytes@.len());
            if is_data {
                assert(walk(bytes@, pos as int, fmt, gd) == Ok::<(Option<WavHeader>, Option<(int, int)>), Seq<char>>((fmt, Some((body as int, len - body)))));
                data = Some((body, len - body));
                proof {
                    gd = Some((body as int, len - body));
                }
                break;
            }
            assert(walk(bytes@, pos as int, fmt, gd) == Err::<(Option<WavHeader>, Option<(int, int)>), Seq<char>>(wav_err_text("文件在块中间被截断"@)));
            return Err(wav_err("文件在块中间被截断"));
        }
        assert(body + size <= bytes@.len());
        let ghost old_w = walk(bytes@, pos as int, fmt, gd);
        let ghost step = chunk_step(bytes@, pos as int, fmt, gd);
        let is_fmt = tag_eq(bytes, pos, 102, 109, 116, 32);
        assert(is_fmt == tag_at(bytes@, pos as int, fmt_tag()));
        if is_fmt {
            match read_fmt(bytes, body, size) {
                Ok(h) => {
                    fmt = Some(h);
                },
                Err(e) => {
                    assert(step == Err::<(Option<WavHeader>, Option<(int, int)>), Seq<char>>(e@));
                    assert(old_w == Err::<(Option<WavHeader>, Option<(int, int)>), Seq<char>>(e@));
                    return Err(e);
                },
            }
        } else if is_data {
            data = Some((body, size));
            proof {
                gd = Some((body as int, size as int));
            }
        }
        assert(step == Ok::<(Option<WavHeader>, Option<(int, int)>), Seq<char>>((fmt, gd)));
        let next = body + size;
        assert(old_w == walk(bytes@, body + size + size % 2, fmt, gd));
        pos = if size % 2 == 1 && next < len { next + 1 } else { next };
        assert(walk(bytes@, body + size + size % 2, fmt, gd) == walk(bytes@, pos as int, fmt, gd));
    }
    let mut header = match fmt {
        Some(h) => h,
        None => {
            return Err(wav_err("缺少 fmt 块"));
        },
    };
    match data {
        Some((o, l)) => {
            header.data_offset = o;
            header.data_len = l;
            Ok(header)
        },
        None => Err(wav_err("缺少 data 块")),
    }
}

/// Error text for a compressed format that could not be decoded.
pub fn symphonia_unsupported(ext: &str, reason: &str) -> (r: String)
    ensures
        r@ == "暂不支持该音频（."@ + ext@ + "："@ + reason@ + "），请转为 wav 或 mp3 后再试"@,
{
    let mut s = lit("暂不支持该音频（.");
    push_str(&mut s, ext);
    push_str(&mut s, "：");
    push_str(&mut s, reason);
    push_str(&mut s, "），请转为 wav 或 mp3 后再试");
    s
}

} // verus!

verus! {

proof fn lemma_le16_read(v: int, b: Seq<u8>, off: int)
    requires
        0 <= v < 65536,
        0 <= off,
        off + 2 <= b.len(),
        b[off] == le16(v)[0],
        b[off + 1] == le16(v)[1],
    ensures
        u16_at(b, off) == v,
{
    let lo = v % 256;
    let hi = v / 256 % 256;
    assert(0 <= lo < 256 && 0 <= hi < 256 && v == lo + 256 * hi) by (nonlinear_arith)
        requires
            0 <= v < 65536,
            lo == v % 256,
            hi == v / 256 % 256;
    assert(b[off] as int == lo);
    assert(b[off + 1] as int == hi);
}

proof fn lemma_le32_read(v: int, b: Seq<u8>, off: int)
    requires
        0 <= v < 0x1_0000_0000,
        0 <= off,
        off + 4 <= b.len(),
        b[off] == le32(v)[0],
        b[off + 1] == le32(v)[1],
        b[off + 2] == le32(v)[2],
        b[off + 3] == le32(v)[3],
    ensures
        u32_at(b, off) == v,
{
    let b0 = v % 256;
    let b1 = v / 256 % 256;
    let b2 = v / 65536 % 256;
    let b3 = v / 16777216 % 256;
    assert(0 <= b0 < 256 && 0 <= b1 < 256 && 0 <= b2 < 256 && 0 <= b3 < 256 && v == b0 + 256 * b1
        + 65536 * b2 + 16777216 * b3) by (nonlinear_arith)
        requires
            0 <= v < 0x1_0000_0000,
            b0 == v % 256,
            b1 == v / 256 % 256,
            b2 == v / 65536 % 256,
            b3 == v / 16777216 % 256;
    assert(b[off] as int == b0);
    assert(b[off + 1] as int == b1);
    assert(b[off + 2] as int == b2);
    assert(b[off + 3] as int == b3);
}

proof fn lemma_pcm16_len(samples: Seq<i16>)
    ensures
        pcm16_data(samples).len() == 2 * samples.len(),
    decreases samples.len(),
{
    if samples.len() > 0 {
        lemma_pcm16_len(samples.drop_last());
    }
}

proof fn lemma_header_bytes(n: int, r: u32)
    requires
        0 <= n,
    ensures
        ({
            let h = wav_pcm16_header(n as nat, r);
            &&& h.len() == 44
            &&& h.subrange(0, 4) == riff_tag()
            &&& h.subrange(8, 12) == wave_tag()
            &&& h.subrange(12, 16) == fmt_tag()
            &&& h.subrange(36, 40) == data_tag()
            &&& h.subrange(16, 20) == le32(16)
            &&& h.subrange(20, 22) == le16(1)
            &&& h.subrange(22, 24) == le16(1)
            &&& h.subrange(24, 28) == le32(r as int)
            &&& h.subrange(34, 36) == le16(16)
            &&& h.subrange(40, 44) == le32(2 * n)
        }),
{
    let h = wav_pcm16_header(n as nat, r);
    let p1 = riff_tag() + le32(36 + 2 * n);
    let p2 = p1 + wave_tag();
    let p3 = p2 + fmt_tag();
    let p4 = p3 + le32(16);
    let p5 = p4 + le16(1);
    let p6 = p5 + le16(1);
    let p7 = p6 + le32(r as int);
    let p8 = p7 + le32(2 * r);
    let p9 = p8 + le16(2);
    let p10 = p9 + le16(16);
    let p11 = p10 + data_tag();
    assert(h == p11 + le32(2 * n));
    assert(p1.subrange(0, 4) =~= riff_tag());
    assert(p2.subrange(0, 4) =~= riff_tag());
    assert(p2.subrange(8, 12) =~= wave_tag());
    assert(p3.subrange(0, 4) =~= riff_tag());
    assert(p3.subrange(8, 12) =~= wave_tag());
    assert(p3.subrange(12, 16) =~= fmt_tag());
    assert(p4.subrange(0, 16) =~= p3);
    assert(p4.subrange(16, 20) =~= le32(16));
    assert(p6.subrange(0, 20) =~= p4);
    assert(p6.subrange(20, 22) =~= le16(1));
    assert(p6.subrange(22, 24) =~= le16(1));
    assert(p7.subrange(0, 24) =~= p6);
    assert(p7.subrange(24, 28) =~= le32(r as int));
    assert(p10.subrange(0, 28) =~= p7);
    assert(p10.subrange(34, 36) =~= le16(16));
    assert(p11.subrange(0, 36) =~= p10);
    assert(p11.subrange(36, 40) =~= data_tag());
    assert(h.subrange(0, 40) =~= p11);
    assert(h.subrange(40, 44) =~= le32(2 * n));
    assert(h.subrange(0, 4) =~= p11.subrange(0, 4));
    assert(p11.subrange(0, 4) =~= p10.subrange(0, 4));
    assert(p10.subrange(0, 4) =~= p7.subrange(0, 4));
    assert(p7.subrange(0, 4) =~= p6.subrange(0, 4));
    assert(p6.subrange(0, 4) =~= p4.subrange(0, 4));
    assert(p4.subrange(0, 4) =~= p3.subrange(0, 4));
    assert(h.subrange(8, 12) =~= p3.subrange(8, 12));
    assert(h.subrange(12, 16) =~= p3.subrange(12, 16));
    assert(h.subrange(16, 20) =~= p4.subrange(16, 20));
    assert(h.subrange(20, 22) =~= p6.subrange(20, 22));
    assert(h.subrange(22, 24) =~= p6.subrange(22, 24));
    assert(h.subrange(24, 28) =~= p7.subrange(24, 28));
    assert(h.subrange(34, 36) =~= p10.subrange(34, 36));
    assert(h.subrange(36, 40) =~= p11.subrange(36, 40));
}

proof fn lemma_prefix_byte(b: Seq<u8>, h: Seq<u8>, part: Seq<u8>, lo: int, hi: int, k: int)
    requires
        b.len() >= 44,
        b.subrange(0, 44) == h,
        0 <= lo <= k < hi <= 44,
        h.subrange(lo, hi) == part,
    ensures
        b[k] == part[k - lo],
{
    assert(b[k] == b.subrange(0, 44)[k]);
    assert(h[k] == h.subrange(lo, hi)[k - lo]);
}

proof fn lemma_prefix_sub(b: Seq<u8>, h: Seq<u8>, lo: int, hi: int)
    requires
        b.len() >= 44,
        b.subrange(0, 44) == h,
        0 <= lo <= hi <= 44,
    ensures
        b.subrange(lo, hi) == h.subrange(lo, hi),
{
    assert(b.subrange(lo, hi) =~= h.subrange(lo, hi));
}

/// The header fields of a file that starts with the mono PCM16 header.
proof fn lemma_header_fields(b: Seq<u8>, n: int, r: u32)
    requires
        0 <= n,
        36 + 2 * n <= u32::MAX,
        b.len() >= 44,
        b.subrange(0, 44) == wav_pcm16_header(n as nat, r),
    ensures
        tag_at(b, 0, riff_tag()),
        tag_at(b, 8, wave_tag()),
        tag_at(b, 12, fmt_tag()),
        !tag_at(b, 12, data_tag()),
        tag_at(b, 36, data_tag()),
        !tag_at(b, 36, fmt_tag()),
        u32_at(b, 16) == 16,
        u16_at(b, 20) == 1,
        u16_at(b, 22) == 1,
        u32_at(b, 24) == r,
        u16_at(b, 34) == 16,
        u32_at(b, 40) == 2 * n,
{
    let h = wav_pcm16_header(n as nat, r);
    lemma_header_bytes(n, r);
    lemma_prefix_sub(b, h, 0, 4);
    lemma_prefix_sub(b, h, 8, 12);
    lemma_prefix_sub(b, h, 12, 16);
    lemma_prefix_sub(b, h, 36, 40);
    assert(b.subrange(12, 16)[0] != data_tag()[0]);
    assert(b.subrange(36, 40)[0] != fmt_tag()[0]);
    lemma_prefix_byte(b, h, le32(16), 16, 20, 16);
    lemma_prefix_byte(b, h, le32(16), 16, 20, 17);
    lemma_prefix_byte(b, h, le32(16), 16, 20, 18);
    lemma_prefix_byte(b, h, le32(16), 16, 20, 19);
    lemma_le32_read(16, b, 16);
    lemma_prefix_byte(b, h, le16(1), 20, 22, 20);
    lemma_prefix_byte(b, h, le16(1), 20, 22, 21);
    lemma_le16_read(1, b, 20);
    lemma_prefix_byte(b, h, le16(1), 22, 24, 22);
    lemma_prefix_byte(b, h, le16(1), 22, 24, 23);
    lemma_le16_read(1, b, 22);
    lemma_prefix_byte(b, h, le32(r as int), 24, 28, 24);
    lemma_prefix_byte(b, h, le32(r as int), 24, 28, 25);
    lemma_prefix_byte(b, h, le32(r as int), 24, 28, 26);
    lemma_prefix_byte(b, h, le32(r as int), 24, 28, 27);
    lemma_le32_read(r as int, b, 24);
    lemma_prefix_byte(b, h, le16(16), 34, 36, 34);
    lemma_prefix_byte(b, h, le16(16), 34, 36, 35);
    lemma_le16_read(16, b, 34);
    lemma_prefix_byte(b, h, le32(2 * n), 40, 44, 40);
    lemma_prefix_byte(b, h, le32(2 * n), 40, 44, 41);
    lemma_prefix_byte(b, h, le32(2 * n), 40, 44, 42);
    lemma_prefix_byte(b, h, le32(2 * n), 40, 44, 43);
    lemma_le32_read(2 * n, b, 40);
}

proof fn lemma_walk_pcm16(b: Seq<u8>, n: int, sample_rate: u32)
    requires
        0 <= n,
        36 + 2 * n <= u32::MAX,
        sample_rate > 0,
        b.len() == 44 + 2 * n,
        tag_at(b, 0, riff_tag()),
        tag_at(b, 8, wave_tag()),
        tag_at(b, 12, fmt_tag()),
        !tag_at(b, 12, data_tag()),
        tag_at(b, 36, data_tag()),
        !tag_at(b, 36, fmt_tag()),
        u32_at(b, 16) == 16,
        u16_at(b, 20) == 1,
        u16_at(b, 22) == 1,
        u32_at(b, 24) == sample_rate,
        u16_at(b, 34) == 16,
        u32_at(b, 40) == 2 * n,
    ensures
        wav_header_of(b) == Ok::<WavHeader, Seq<char>>(
            WavHeader {
                audio_format: 1,
                channels: 1,
                sample_rate,
                bits: 16,
                bytes_per_sample: 2,
                data_offset: 44,
                data_len: (2 * n) as usize,
            },
        ),
{
    let hdr = WavHeader {
        audio_format: 1,
        channels: 1,
        sample_rate,
        bits: 16,
        bytes_per_sample: 2,
        data_offset: 0,
        data_len: 0,
    };
    assert(fmt_chunk(b, 20, 16) == Ok::<WavHeader, Seq<char>>(hdr));
    assert(chunk_step(b, 12, None, None) == Ok::<(Option<WavHeader>, Option<(int, int)>), Seq<char>>((Some(hdr), None)));
    assert(chunk_step(b, 36, Some(hdr), None) == Ok::<(Option<WavHeader>, Option<(int, int)>), Seq<char>>((Some(hdr), Some((44, 2 * n)))));
    assert(walk(b, 44 + 2 * n, Some(hdr), Some((44, 2 * n))) == Ok::<(Option<WavHeader>, Option<(int, int)>), Seq<char>>((Some(hdr), Some((44, 2 * n)))));
    assert((2 * n) % 2 == 0);
    assert(walk(b, 36, Some(hdr), None) == Ok::<(Option<WavHeader>, Option<(int, int)>), Seq<char>>((Some(hdr), Some((44, 2 * n)))));
    assert(walk(b, 12, None, None) == Ok::<(Option<WavHeader>, Option<(int, int)>), Seq<char>>((Some(hdr), Some((44, 2 * n)))));
}

/// A file written by [`crate::audio::wav_pcm16_bytes`] parses back to its own
/// parameters: PCM, mono, the given sample rate, 16 bits, data after the
/// 44-byte header and two bytes per sample.
pub proof fn lemma_wav_pcm16_roundtrip(samples: Seq<i16>, sample_rate: u32)
    requires
        36 + 2 * samples.len() <= u32::MAX,
        2 * sample_rate <= u32::MAX,
        sample_rate > 0,
    ensures
        wav_header_of(wav_pcm16_file(samples, sample_rate)) == Ok::<WavHeader, Seq<char>>(
            WavHeader {
                audio_format: 1,
                channels: 1,
                sample_rate,
                bits: 16,
                bytes_per_sample: 2,
                data_offset: 44,
                data_len: (2 * samples.len()) as usize,
            },
        ),
{
    let n: int = samples.len() as int;
    let h = wav_pcm16_header(samples.len(), sample_rate);
    let b = wav_pcm16_file(samples, sample_rate);
    lemma_pcm16_len(samples);
    lemma_header_bytes(n, sample_rate);
    assert(b.subrange(0, 44) =~= h);
    lemma_header_fields(b, n, sample_rate);
    assert(b.len() == 44 + 2 * n);
    lemma_walk_pcm16(b, n, sample_rate);
}

} // verus!

verus! {

/// Extensions decoded with the general audio decoder.
pub const SYMPHONIA_EXTS: [&'static str; 5] = ["mp3", "flac", "m4a", "aac", "mp4"];

/// How an audio file is read, by its extension.
#[derive(Debug, Clone, PartialEq, Eq)]
pub enum AudioFormat {
    /// RIFF/WAVE, parsed here.
    Wav,
    /// Decoded by the general decoder; the extension in lowercase.
    Other(String),
}

pub open spec fn ascii_lower_all(s: Seq<char>) -> Seq<char> {
    s.map_values(|c: char| crate::text::ascii_lower(c))
}

pub open spec fn unsupported_format_msg(ext: Seq<char>) -> Seq<char> {
    if ext.len() == 0 {
        "暂不支持该格式（文件没有扩展名），请将音频转为 wav 或 mp3 后再试"@
    } else {
        "暂不支持该格式（."@ + ext + "），请将音频转为 wav 或 mp3 后再试"@
    }
}

/// A file's extension in ASCII lowercase (none counts as empty).
pub open spec fn lowered_ext(ext: Option<Seq<char>>) -> Seq<char> {
    match ext {
        Some(x) => ascii_lower_all(x),
        None => Seq::<char>::empty(),
    }
}

/// Extensions of the general audio decoder.
pub open spec fn is_general_ext(e: Seq<char>) -> bool {
    e == "mp3"@ || e == "flac"@ || e == "m4a"@ || e == "aac"@ || e == "mp4"@
}

fn lower_ascii_string(s: &str) -> (r: String)
    ensures
        r@ == ascii_lower_all(s@),
{
    let v = crate::text::chars_of(s);
    let mut out: Vec<char> = Vec::new();
    let mut i: usize = 0;
    while i < v.len()
        invariant
            i <= v@.len(),
            v@ == s@,
            out@ == ascii_lower_all(v@.subrange(0, i as int)),
        decreases v@.len() - i,
    {
        out.push(crate::text::char_ascii_lower(v[i]));
        assert(out@ =~= ascii_lower_all(v@.subrange(0, i + 1)));
        i = i + 1;
    }
    assert(v@.subrange(0, v@.len() as int) =~= v@);
    crate::text::string_of(out.as_slice())
}

/// The reader for a file extension, compared in ASCII lowercase: `wav` and
/// `wave` are parsed here, the general decoder's extensions go to it
/// (lowercased), anything else is an error naming the extension and asking
/// for wav or mp3.
pub fn audio_format(ext: Option<&str>) -> (r: Result<AudioFormat, String>)
    ensures
        ({
            let e = lowered_ext(crate::report::opt_view(ext));
            if e == "wav"@ || e == "wave"@ {
                r == Ok::<AudioFormat, String>(AudioFormat::Wav)
            } else if is_general_ext(e) {
                r matches Ok(AudioFormat::Other(o)) && o@ == e
            } else {
                r matches Err(m) && m@ == unsupported_format_msg(e)
            }
        }),
{
    let e = match ext {
        Some(x) => lower_ascii_string(x),
        None => String::new(),
    };
    let es = e.as_str();
    if crate::text::str_eq(es, "wav") || crate::text::str_eq(es, "wave") {
        return Ok(AudioFormat::Wav);
    }
    if crate::text::str_eq(es, "mp3") || crate::text::str_eq(es, "flac") || crate::text::str_eq(es, "m4a")
        || crate::text::str_eq(es, "aac") || crate::text::str_eq(es, "mp4") {
        return Ok(AudioFormat::Other(e));
    }
    if e.as_str().is_empty() {
        Err(lit("暂不支持该格式（文件没有扩展名），请将音频转为 wav 或 mp3 后再试"))
    } else {
        let mut m = lit("暂不支持该格式（.");
        crate::text::push_str(&mut m, e.as_str());
        crate::text::push_str(&mut m, "），请将音频转为 wav 或 mp3 后再试");
        Err(m)
    }
}

/// The message for an audio file that is not there.
pub fn missing_audio_msg(path: &str) -> (r: String)
    ensures
        r@ == "找不到音频文件："@ + path@ + "（文件可能已被移动、删除或重命名）"@,
{
    let mut m = lit("找不到音频文件：");
    crate::text::push_str(&mut m, path);
    crate::text::push_str(&mut m, "（文件可能已被移动、删除或重命名）");
    m
}

/// A header found so far that a duration can be computed from.
pub open spec fn bounded_parts(b: Seq<u8>, fmt: Option<WavHeader>, data: Option<(int, int)>) -> bool {
    &&& (fmt matches Some(h) ==> h.bytes_per_sample < 65536)
    &&& (data matches Some((o, l)) ==> 0 <= o && 0 <= l && o + l <= b.len())
}

proof fn lemma_walk_bounded(b: Seq<u8>, pos: int, fmt: Option<WavHeader>, data: Option<(int, int)>)
    requires
        bounded_parts(b, fmt, data),
    ensures
        walk(b, pos, fmt, data) matches Ok((f, d)) ==> bounded_parts(b, f, d),
    decreases b.len() + 1 - pos,
{
    if pos < 0 || pos + 8 > b.len() {
    } else {
        let size = u32_at(b, pos + 4);
        let body = pos + 8;
        if body + size > b.len() {
        } else {
            match chunk_step(b, pos, fmt, data) {
                Err(e) => {},
                Ok((f2, d2)) => {
                    assert(bounded_parts(b, f2, d2));
                    lemma_walk_bounded(b, body + size + size % 2, f2, d2);
                },
            }
        }
    }
}

/// The duration of the data of a WAV file, in milliseconds (whole frames).
pub open spec fn wav_duration(h: WavHeader) -> int {
    let block = (if h.channels == 0 { 1 } else { h.channels as int }) * h.bytes_per_sample;
    if block == 0 || h.sample_rate == 0 {
        0
    } else {
        (h.data_len as int / block) * 1000 / h.sample_rate as int
    }
}

/// The duration of a WAV file from its bytes.
pub fn probe_wav_duration(bytes: &[u8]) -> (r: Result<u64, String>)
    requires
        bytes@.len() * 1000 <= u64::MAX,
    ensures
        match wav_header_of(bytes@) {
            Ok(h) => r matches Ok(d) && d == wav_duration(h),
            Err(e) => r matches Err(m) && m@ == e,
        },
{
    proof {
        lemma_walk_bounded(bytes@, 12, None, None);
    }
    match parse_wav_header(bytes) {
        Ok(h) => Ok(h.duration_ms()),
        Err(e) => Err(e),
    }
}

} // verus!
