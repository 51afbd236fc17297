//! The canonical WAV file: a 44-byte header, then 16-bit PCM samples. It is
//! the format the sound engine reads on every platform.

use vstd::prelude::*;

verus! {

/// Size of the canonical WAV header, in bytes.
pub const WAV_HEADER_SIZE: usize = 44;

/// Bits in a sample.
pub const BITS_PER_SAMPLE: u16 = 16;

/// The two bytes of `x`, least significant first.
pub open spec fn le16(x: int) -> Seq<u8> {
    seq![(x % 256) as u8, ((x / 256) % 256) as u8]
}

/// The four bytes of `x`, least significant first.
pub open spec fn le32(x: int) -> Seq<u8> {
    seq![(x % 256) as u8, ((x / 256) % 256) as u8, ((x / 65536) % 256) as u8, ((x / 16777216) % 256) as u8]
}

/// The header of a canonical WAV file announcing `data_size` bytes of 16-bit
/// samples at `sample_rate`, over `channels` channels.
pub open spec fn wav_header(data_size: int, sample_rate: int, channels: int) -> Seq<u8> {
    seq![82u8, 73u8, 70u8, 70u8] + le32(36 + data_size) + seq![87u8, 65u8, 86u8, 69u8] + seq![
        102u8,
        109u8,
        116u8,
        32u8,
    ] + le32(16) + le16(1) + le16(channels) + le32(sample_rate) + le32(sample_rate * channels * 2) + le16(
        channels * 2,
    ) + le16(16) + seq![100u8, 97u8, 116u8, 97u8] + le32(data_size)
}

/// A header can be written for these numbers without overflow.
pub open spec fn header_fits(data_size: int, sample_rate: u32, channels: u16) -> bool {
    &&& 0 <= data_size <= u32::MAX - 36
    &&& sample_rate * channels * 2 <= u32::MAX
    &&& channels * 16 <= u16::MAX
}

fn push_le16(bytes: &mut Vec<u8>, x: u16)
    ensures
        final(bytes)@ == old(bytes)@ + le16(x as int),
{
    bytes.push((x % 256) as u8);
    bytes.push((x / 256 % 256) as u8);
    assert(final(bytes)@ =~= old(bytes)@ + le16(x as int)) by {
        assert(bytes@ =~= old(bytes)@ + le16(x as int));
    }
}

fn push_le32(bytes: &mut Vec<u8>, x: u32)
    ensures
        final(bytes)@ == old(bytes)@ + le32(x as int),
{
    bytes.push((x % 256) as u8);
    bytes.push((x / 256 % 256) as u8);
    bytes.push((x / 65536 % 256) as u8);
    bytes.push((x / 16777216 % 256) as u8);
    assert(bytes@ =~= old(bytes)@ + le32(x as int));
}

fn push_tag(bytes: &mut Vec<u8>, a: u8, b: u8, c: u8, d: u8)
    ensures
        final(bytes)@ == old(bytes)@ + seq![a, b, c, d],
{
    bytes.push(a);
    bytes.push(b);
    bytes.push(c);
    bytes.push(d);
    assert(bytes@ =~= old(bytes)@ + seq![a, b, c, d]);
}

/// The header for `data_size` bytes of samples.
pub fn header(data_size: u32, sample_rate: u32, channels: u16) -> (h: Vec<u8>)
    requires
        header_fits(data_size as int, sample_rate, channels),
    ensures
        h@ == wav_header(data_size as int, sample_rate as int, channels as int),
        h@.len() == WAV_HEADER_SIZE,
{
    let byte_rate = sample_rate * channels as u32 * (BITS_PER_SAMPLE / 8) as u32;
    let mut h: Vec<u8> = Vec::new();
    push_tag(&mut h, 82, 73, 70, 70);
    // Everything after this field: the header less its first eight bytes.
    push_le32(&mut h, (WAV_HEADER_SIZE - 8) as u32 + data_size);
    push_tag(&mut h, 87, 65, 86, 69);
    push_tag(&mut h, 102, 109, 116, 32);
    // Size of the format block.
    push_le32(&mut h, 16);
    // Uncompressed PCM.
    push_le16(&mut h, 1);
    push_le16(&mut h, channels);
    push_le32(&mut h, sample_rate);
    push_le32(&mut h, byte_rate);
    // Alignment of a frame.
    push_le16(&mut h, channels * BITS_PER_SAMPLE / 8);
    push_le16(&mut h, BITS_PER_SAMPLE);
    push_tag(&mut h, 100, 97, 116, 97);
    push_le32(&mut h, data_size);
    assert(h@ =~= wav_header(data_size as int, sample_rate as int, channels as int));
    h
}

/// Writes the header over the first 44 bytes of a buffer that reserved them,
/// the rest holding the samples already. Working this way encodes a track as
/// it is decoded, without keeping a copy of the whole track beside the
/// result.
pub fn write_wav_header(wav: &mut Vec<u8>, sample_rate: u32, channels: u16)
    requires
        old(wav)@.len() >= WAV_HEADER_SIZE,
        header_fits(old(wav)@.len() - WAV_HEADER_SIZE, sample_rate, channels),
    ensures
        final(wav)@ == wav_header(old(wav)@.len() - WAV_HEADER_SIZE, sample_rate as int, channels as int)
            + old(wav)@.skip(WAV_HEADER_SIZE as int),
{
    let data_size = (wav.len() - WAV_HEADER_SIZE) as u32;
    let h = header(data_size, sample_rate, channels);
    let mut i: usize = 0;
    while i < WAV_HEADER_SIZE
        invariant
            h@.len() == WAV_HEADER_SIZE,
            old(wav)@.len() >= WAV_HEADER_SIZE,
            wav@.len() == old(wav)@.len(),
            i <= WAV_HEADER_SIZE,
            forall|k: int| 0 <= k < i ==> wav@[k] == h@[k],
            forall|k: int| WAV_HEADER_SIZE <= k < wav@.len() ==> wav@[k] == old(wav)@[k],
        decreases WAV_HEADER_SIZE - i,
    {
        wav.set(i, h[i]);
        i = i + 1;
    }
    assert(wav@ =~= h@ + old(wav)@.skip(WAV_HEADER_SIZE as int));
}

/// The bytes of 16-bit samples, each least significant byte first.
pub open spec fn pcm_bytes(samples: Seq<i16>) -> Seq<u8>
    decreases samples.len(),
{
    if samples.len() == 0 {
        Seq::empty()
    } else {
        pcm_bytes(samples.drop_last()) + le16(if samples.last() < 0 {
            samples.last() + 65536
        } else {
            samples.last() as int
        })
    }
}

/// Packs interleaved 16-bit samples into a canonical WAV file.
pub fn encode_wav(samples: &Vec<i16>, sample_rate: u32, channels: u16) -> (wav: Vec<u8>)
    requires
        header_fits((samples@.len() * 2) as int, sample_rate, channels),
    ensures
        wav@ == wav_header((samples@.len() * 2) as int, sample_rate as int, channels as int) + pcm_bytes(samples@),
{
    let mut wav: Vec<u8> = Vec::new();
    let mut i: usize = 0;
    while i < WAV_HEADER_SIZE
        invariant
            i <= WAV_HEADER_SIZE,
            wav@.len() == i,
        decreases WAV_HEADER_SIZE - i,
    {
        wav.push(0);
        i = i + 1;
    }
    let mut k: usize = 0;
    while k < samples.len()
        invariant
            k <= samples@.len(),
            wav@.len() == WAV_HEADER_SIZE + 2 * k,
            wav@.skip(WAV_HEADER_SIZE as int) == pcm_bytes(samples@.take(k as int)),
        decreases samples@.len() - k,
    {
        let sample = samples[k];
        let unsigned: u16 = if sample < 0 {
            (sample as i32 + 65536) as u16
        } else {
            sample as u16
        };
        let ghost before = wav@;
        push_le16(&mut wav, unsigned);
        proof {
            assert(samples@.take(k + 1).drop_last() =~= samples@.take(k as int));
            assert(samples@.take(k + 1).last() == sample);
            assert(wav@.skip(WAV_HEADER_SIZE as int) =~= before.skip(WAV_HEADER_SIZE as int) + le16(unsigned as int));
        }
        k = k + 1;
    }
    assert(samples@.take(samples@.len() as int) =~= samples@);
    write_wav_header(&mut wav, sample_rate, channels);
    wav
}

} // verus!
