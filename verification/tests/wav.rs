use glyphfall::wav::{encode_wav, header, write_wav_header, WAV_HEADER_SIZE};

const SAMPLE_RATE: u32 = 22_050;

fn le32(bytes: &[u8]) -> u32 {
    u32::from_le_bytes(bytes.try_into().unwrap())
}

#[test]
fn the_wav_header_describes_the_data_that_follows() {
    let samples = vec![0i16; 100];

    let wav = encode_wav(&samples, SAMPLE_RATE, 1);

    assert_eq!(&wav[0..4], b"RIFF");
    assert_eq!(&wav[8..12], b"WAVE");
    assert_eq!(&wav[36..40], b"data");
    assert_eq!(wav.len(), 44 + samples.len() * 2, "en-tête de 44 octets puis 16 bits par échantillon");

    let announced = le32(&wav[40..44]);
    assert_eq!(announced as usize, samples.len() * 2);

    let riff_size = le32(&wav[4..8]);
    assert_eq!(riff_size as usize, wav.len() - 8, "RIFF annonce tout ce qui le suit");
}

#[test]
fn samples_are_written_least_significant_byte_first() {
    let wav = encode_wav(&vec![i16::MAX, -i16::MAX, -1], SAMPLE_RATE, 1);

    assert_eq!(i16::from_le_bytes([wav[44], wav[45]]), i16::MAX);
    assert_eq!(i16::from_le_bytes([wav[46], wav[47]]), -i16::MAX);
    assert_eq!(i16::from_le_bytes([wav[48], wav[49]]), -1);
}

#[test]
fn the_header_announces_the_format() {
    let h = header(8, 44_100, 2);

    assert_eq!(h.len(), WAV_HEADER_SIZE);
    assert_eq!(&h[12..16], b"fmt ");
    assert_eq!(le32(&h[16..20]), 16);
    assert_eq!(u16::from_le_bytes([h[20], h[21]]), 1);
    assert_eq!(u16::from_le_bytes([h[22], h[23]]), 2);
    assert_eq!(le32(&h[24..28]), 44_100);
    assert_eq!(le32(&h[28..32]), 44_100 * 2 * 2);
    assert_eq!(u16::from_le_bytes([h[32], h[33]]), 4);
    assert_eq!(u16::from_le_bytes([h[34], h[35]]), 16);
}

#[test]
fn writing_the_header_keeps_the_samples() {
    let mut wav = vec![0u8; WAV_HEADER_SIZE];
    wav.extend_from_slice(&[1, 2, 3, 4]);

    write_wav_header(&mut wav, 8_000, 1);

    assert_eq!(&wav[44..], &[1, 2, 3, 4]);
    assert_eq!(le32(&wav[40..44]), 4);
    assert_eq!(&wav[0..4], b"RIFF");
}
