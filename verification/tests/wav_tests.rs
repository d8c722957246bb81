use tabplayer::numbers::{decimal_chars, decimal_chars_signed, parse_u32_chars};
use tabplayer::wav::{pcm_to_wav_bytes, DecodedAudio, WavError};

fn chars(s: &str) -> Vec<char> {
    s.chars().collect()
}

#[test]
fn wav_image_of_two_mono_samples() {
    let audio = DecodedAudio { sample_rate: 8000, channels: 1, interleaved_i16: vec![1, -2] };
    let bytes = pcm_to_wav_bytes(&audio).unwrap();
    let mut expected: Vec<u8> = Vec::new();
    expected.extend_from_slice(b"RIFF");
    expected.extend_from_slice(&[40, 0, 0, 0]);
    expected.extend_from_slice(b"WAVE");
    expected.extend_from_slice(b"fmt ");
    expected.extend_from_slice(&[16, 0, 0, 0]);
    expected.extend_from_slice(&[1, 0]);
    expected.extend_from_slice(&[1, 0]);
    expected.extend_from_slice(&[0x40, 0x1f, 0, 0]);
    expected.extend_from_slice(&[0x80, 0x3e, 0, 0]);
    expected.extend_from_slice(&[2, 0]);
    expected.extend_from_slice(&[16, 0]);
    expected.extend_from_slice(b"data");
    expected.extend_from_slice(&[4, 0, 0, 0]);
    expected.extend_from_slice(&[1, 0, 0xfe, 0xff]);
    assert_eq!(bytes, expected);
}

#[test]
fn wav_image_reads_back_layout_and_samples() {
    let samples: Vec<i16> = vec![0, 1, -1, i16::MAX, i16::MIN, 300, -300, 7];
    let audio = DecodedAudio { sample_rate: 44100, channels: 2, interleaved_i16: samples.clone() };
    let bytes = pcm_to_wav_bytes(&audio).unwrap();
    assert_eq!(bytes.len(), 44 + 2 * samples.len());
    let u32_at = |o: usize| u32::from_le_bytes([bytes[o], bytes[o + 1], bytes[o + 2], bytes[o + 3]]);
    let u16_at = |o: usize| u16::from_le_bytes([bytes[o], bytes[o + 1]]);
    assert_eq!(u32_at(4), 36 + 2 * samples.len() as u32);
    assert_eq!(u16_at(20), 1);
    assert_eq!(u16_at(22), 2);
    assert_eq!(u32_at(24), 44100);
    assert_eq!(u32_at(28), 44100 * 4);
    assert_eq!(u16_at(32), 4);
    assert_eq!(u16_at(34), 16);
    assert_eq!(u32_at(40), 2 * samples.len() as u32);
    for (i, s) in samples.iter().enumerate() {
        assert_eq!(i16::from_le_bytes([bytes[44 + 2 * i], bytes[45 + 2 * i]]), *s);
    }
}

#[test]
fn wav_of_no_samples_is_header_only() {
    let audio = DecodedAudio { sample_rate: 1, channels: 1, interleaved_i16: vec![] };
    let bytes = pcm_to_wav_bytes(&audio).unwrap();
    assert_eq!(bytes.len(), 44);
    assert_eq!(&bytes[4..8], &[36, 0, 0, 0]);
}

#[test]
fn wav_rejects_invalid_metadata() {
    let a = DecodedAudio { sample_rate: 44100, channels: 0, interleaved_i16: vec![1] };
    assert_eq!(pcm_to_wav_bytes(&a), Err(WavError::InvalidMetadata));
    let b = DecodedAudio { sample_rate: 0, channels: 2, interleaved_i16: vec![1] };
    assert_eq!(pcm_to_wav_bytes(&b), Err(WavError::InvalidMetadata));
}

#[test]
fn wav_rejects_byte_rate_overflow() {
    let a = DecodedAudio { sample_rate: u32::MAX, channels: 2, interleaved_i16: vec![] };
    assert_eq!(pcm_to_wav_bytes(&a), Err(WavError::ByteRateOverflow));
    let b = DecodedAudio { sample_rate: 1 << 30, channels: 2, interleaved_i16: vec![] };
    assert_eq!(pcm_to_wav_bytes(&b), Err(WavError::ByteRateOverflow));
    let c = DecodedAudio { sample_rate: (1 << 30) - 1, channels: 2, interleaved_i16: vec![] };
    assert!(pcm_to_wav_bytes(&c).is_ok());
}

#[test]
fn wav_error_messages() {
    assert_eq!(WavError::InvalidMetadata.message(), "invalid pcm metadata");
    assert_eq!(WavError::ByteRateOverflow.message(), "wav byte rate overflow");
    assert_eq!(WavError::PayloadTooLarge.message(), "wav payload too large");
    assert_eq!(WavError::RiffSizeOverflow.message(), "wav riff size overflow");
}

#[test]
fn decimal_renderings() {
    assert_eq!(decimal_chars(0), chars("0"));
    assert_eq!(decimal_chars(1234567890123), chars("1234567890123"));
    assert_eq!(decimal_chars(u64::MAX as u128), chars("18446744073709551615"));
    assert_eq!(decimal_chars(u128::MAX), chars("340282366920938463463374607431768211455"));
    assert_eq!(decimal_chars_signed(-42), chars("-42"));
    assert_eq!(decimal_chars_signed(i64::MIN), chars("-9223372036854775808"));
    assert_eq!(decimal_chars_signed(5), chars("5"));
}

#[test]
fn u32_parsing_matches_std() {
    for s in ["0", "+12", "007", "4294967295", "4294967296", "", "+", "-1", "1a", " 1", "99999999999"] {
        assert_eq!(parse_u32_chars(&chars(s)), s.parse::<u32>().ok(), "input {:?}", s);
    }
}

#[test]
fn parse_of_decimal_gives_the_number_back() {
    for n in [0u32, 1, 9, 10, 65535, 123456789, u32::MAX] {
        assert_eq!(parse_u32_chars(&decimal_chars(n as u128)), Some(n));
    }
}
