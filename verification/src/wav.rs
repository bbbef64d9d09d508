//! Mono 16-bit PCM WAV files: the 44-byte header, the samples, and reading the header back.
use vstd::prelude::*;
use crate::blob::{u32_le, lemma_u32_le};
use crate::common::{le16, le32, get_le16, get_le32};

verus! {

pub const SAMPLE_RATE: u32 = 16_000;

pub const CHANNELS: u16 = 1;

pub const BITS_PER_SAMPLE: u16 = 16;

/// Little-endian bytes of a 16-bit value.
pub open spec fn u16_le(v: int) -> Seq<u8> {
    seq![(v % 256) as u8, (v / 256 % 256) as u8]
}

/// The four ASCII bytes of a chunk tag.
pub open spec fn tag(a: u8, b: u8, c: u8, d: u8) -> Seq<u8> {
    seq![a, b, c, d]
}

/// The 44-byte header for `data_len` bytes of samples.
pub open spec fn wav_header(data_len: int) -> Seq<u8> {
    tag(0x52, 0x49, 0x46, 0x46) + u32_le(36 + data_len) + tag(0x57, 0x41, 0x56, 0x45) + tag(
        0x66,
        0x6D,
        0x74,
        0x20,
    ) + u32_le(16) + u16_le(1) + u16_le(CHANNELS as int) + u32_le(SAMPLE_RATE as int) + u32_le(
        32000,
    ) + u16_le(2) + u16_le(BITS_PER_SAMPLE as int) + tag(0x64, 0x61, 0x74, 0x61) + u32_le(data_len)
}

/// The two's-complement bits of a sample.
pub open spec fn sample_bits(s: i16) -> int {
    if s < 0 {
        s + 65536
    } else {
        s as int
    }
}

/// The samples as little-endian bytes.
pub open spec fn sample_bytes(s: Seq<i16>) -> Seq<u8> {
    Seq::new(
        (2 * s.len()) as nat,
        |i: int| if i % 2 == 0 {
            (sample_bits(s[i / 2]) % 256) as u8
        } else {
            (sample_bits(s[i / 2]) / 256) as u8
        },
    )
}

/// The whole file.
pub open spec fn wav_bytes(s: Seq<i16>) -> Seq<u8> {
    wav_header(2 * s.len() as int) + sample_bytes(s)
}

fn push_u32(out: &mut Vec<u8>, v: u32)
    ensures
        final(out)@ == old(out)@ + u32_le(v as int),
{
    out.push((v % 256) as u8);
    out.push((v / 256 % 256) as u8);
    out.push((v / 65536 % 256) as u8);
    out.push((v / 16777216 % 256) as u8);
    assert(out@ =~= old(out)@ + u32_le(v as int));
}

fn push_u16(out: &mut Vec<u8>, v: u16)
    ensures
        final(out)@ == old(out)@ + u16_le(v as int),
{
    out.push((v % 256) as u8);
    out.push((v / 256 % 256) as u8);
    assert(out@ =~= old(out)@ + u16_le(v as int));
}

fn push_tag(out: &mut Vec<u8>, a: u8, b: u8, c: u8, d: u8)
    ensures
        final(out)@ == old(out)@ + tag(a, b, c, d),
{
    out.push(a);
    out.push(b);
    out.push(c);
    out.push(d);
    assert(out@ =~= old(out)@ + tag(a, b, c, d));
}

/// Builds a mono 16-bit 16 kHz WAV file from samples.
pub fn build_wav(samples: &[i16]) -> (r: Vec<u8>)
    requires
        2 * samples@.len() + 36 <= u32::MAX,
    ensures
        r@ == wav_bytes(samples@),
{
    let n = samples.len();
    let data_len = (2 * n) as u32;
    let mut out: Vec<u8> = Vec::new();
    push_tag(&mut out, 0x52, 0x49, 0x46, 0x46);
    push_u32(&mut out, 36 + data_len);
    push_tag(&mut out, 0x57, 0x41, 0x56, 0x45);
    push_tag(&mut out, 0x66, 0x6D, 0x74, 0x20);
    push_u32(&mut out, 16);
    push_u16(&mut out, 1);
    push_u16(&mut out, CHANNELS);
    push_u32(&mut out, SAMPLE_RATE);
    push_u32(&mut out, SAMPLE_RATE * (CHANNELS as u32) * ((BITS_PER_SAMPLE as u32) / 8));
    push_u16(&mut out, CHANNELS * BITS_PER_SAMPLE / 8);
    push_u16(&mut out, BITS_PER_SAMPLE);
    push_tag(&mut out, 0x64, 0x61, 0x74, 0x61);
    push_u32(&mut out, data_len);
    let ghost header = out@;
    proof {
        assert(header =~= wav_header(2 * n as int));
    }
    let mut i: usize = 0;
    while i < n
        invariant
            n == samples@.len(),
            i <= n,
            header == wav_header(2 * n as int),
            out@ == header + sample_bytes(samples@.subrange(0, i as int)),
        decreases n - i,
    {
        let s = samples[i];
        let bits: u16 = if s < 0 {
            (s as i32 + 65536) as u16
        } else {
            s as u16
        };
        out.push((bits % 256) as u8);
        out.push((bits / 256) as u8);
        i = i + 1;
        proof {
            assert(sample_bits(s) == bits);
            assert(out@ =~= header + sample_bytes(samples@.subrange(0, i as int)));
        }
    }
    proof {
        assert(samples@.subrange(0, n as int) =~= samples@);
    }
    out
}

/// What the header of a WAV file says.
#[derive(Debug, Clone, Copy, PartialEq, Eq)]
pub struct WavInfo {
    pub sample_rate: u32,
    pub channels: u16,
    pub bits_per_sample: u16,
    pub data_len: u32,
    pub data_offset: usize,
}

/// The header is a canonical 44-byte PCM header: RIFF, WAVE, fmt and data tags in place
/// and format 1.
pub open spec fn header_ok(b: Seq<u8>) -> bool {
    &&& b.len() >= 44
    &&& b.subrange(0, 4) == tag(0x52, 0x49, 0x46, 0x46)
    &&& b.subrange(8, 12) == tag(0x57, 0x41, 0x56, 0x45)
    &&& b.subrange(12, 16) == tag(0x66, 0x6D, 0x74, 0x20)
    &&& b.subrange(36, 40) == tag(0x64, 0x61, 0x74, 0x61)
    &&& le16(b, 20) == 1
}

/// The fields of a canonical header.
pub open spec fn header_info(b: Seq<u8>) -> WavInfo {
    WavInfo {
        sample_rate: le32(b, 24) as u32,
        channels: le16(b, 22) as u16,
        bits_per_sample: le16(b, 34) as u16,
        data_len: le32(b, 40) as u32,
        data_offset: 44,
    }
}

fn tag_at(b: &[u8], p: usize, t0: u8, t1: u8, t2: u8, t3: u8) -> (r: bool)
    requires
        p + 4 <= b@.len(),
    ensures
        r == (b@.subrange(p as int, p + 4) == tag(t0, t1, t2, t3)),
{
    let r = b[p] == t0 && b[p + 1] == t1 && b[p + 2] == t2 && b[p + 3] == t3;
    proof {
        if r {
            assert(b@.subrange(p as int, p + 4) =~= tag(t0, t1, t2, t3));
        } else if b@.subrange(p as int, p + 4) == tag(t0, t1, t2, t3) {
            assert(b@.subrange(p as int, p + 4)[0] == t0);
            assert(b@.subrange(p as int, p + 4)[1] == t1);
            assert(b@.subrange(p as int, p + 4)[2] == t2);
            assert(b@.subrange(p as int, p + 4)[3] == t3);
        }
    }
    r
}

/// Reads a canonical 44-byte PCM WAV header.
pub fn parse_wav_header(bytes: &[u8]) -> (r: Option<WavInfo>)
    ensures
        r is Some <==> header_ok(bytes@),
        r matches Some(i) ==> i == header_info(bytes@),
{
    if bytes.len() < 44 {
        return None;
    }
    let pcm = get_le16(bytes, 20);
    let channels = get_le16(bytes, 22);
    let sample_rate = get_le32(bytes, 24);
    let bits = get_le16(bytes, 34);
    let data_len = get_le32(bytes, 40);
    if !tag_at(bytes, 0, 0x52, 0x49, 0x46, 0x46) || !tag_at(bytes, 8, 0x57, 0x41, 0x56, 0x45)
        || !tag_at(bytes, 12, 0x66, 0x6D, 0x74, 0x20) || !tag_at(bytes, 36, 0x64, 0x61, 0x74, 0x61)
        || pcm != 1 {
        return None;
    }
    Some(WavInfo { sample_rate, channels, bits_per_sample: bits, data_len, data_offset: 44 })
}

proof fn lemma_u16_le(v: int)
    requires
        0 <= v < 0x10000,
    ensures
        u16_le(v).len() == 2,
        le16(u16_le(v), 0) == v,
{
}

/// Reading back the header `build_wav` writes gives 16 kHz, one channel, 16 bits, and
/// two bytes of data per sample.
pub proof fn law_wav_header_roundtrip(s: Seq<i16>)
    requires
        2 * s.len() + 36 <= u32::MAX,
    ensures
        header_ok(wav_bytes(s)),
        header_info(wav_bytes(s)) == (WavInfo {
            sample_rate: SAMPLE_RATE,
            channels: CHANNELS,
            bits_per_sample: BITS_PER_SAMPLE,
            data_len: (2 * s.len()) as u32,
            data_offset: 44,
        }),
{
    let b = wav_bytes(s);
    let d: int = 2 * s.len() as int;
    lemma_u32_le(36 + d);
    lemma_u32_le(16);
    lemma_u32_le(16000);
    lemma_u32_le(32000);
    lemma_u32_le(d);
    lemma_u16_le(1);
    lemma_u16_le(2);
    lemma_u16_le(16);
    let h = wav_header(d);
    assert(h.len() == 44);
    assert(b.subrange(0, 44) =~= h);
    assert(b.subrange(0, 4) =~= tag(0x52, 0x49, 0x46, 0x46));
    assert(b.subrange(8, 12) =~= tag(0x57, 0x41, 0x56, 0x45));
    assert(b.subrange(12, 16) =~= tag(0x66, 0x6D, 0x74, 0x20));
    assert(b.subrange(36, 40) =~= tag(0x64, 0x61, 0x74, 0x61));
    assert(b[20] == 1 && b[21] == 0);
    assert(b[22] == 1 && b[23] == 0);
    assert(b[34] == 16 && b[35] == 0);
    assert(b[24] == u32_le(16000)[0] && b[25] == u32_le(16000)[1] && b[26] == u32_le(16000)[2]
        && b[27] == u32_le(16000)[3]);
    assert(b[40] == u32_le(d)[0] && b[41] == u32_le(d)[1] && b[42] == u32_le(d)[2] && b[43]
        == u32_le(d)[3]);
    assert(le32(b, 24) == le32(u32_le(16000), 0));
    assert(le32(b, 40) == le32(u32_le(d), 0));
}

} // verus!
