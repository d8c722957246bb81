//! Packing decoded 16-bit PCM into a RIFF/WAVE byte image.
use vstd::prelude::*;

verus! {

/// Interleaved signed 16-bit samples with their layout.
pub struct DecodedAudio {
    pub sample_rate: u32,
    pub channels: u16,
    pub interleaved_i16: Vec<i16>,
}

/// Why a WAVE image could not be produced.
#[derive(Debug, Clone, Copy, PartialEq, Eq, Structural)]
pub enum WavError {
    /// Zero channels or a zero sample rate.
    InvalidMetadata,
    /// `sample_rate * channels * 2` does not fit in a `u32`.
    ByteRateOverflow,
    /// The sample payload is larger than `u32::MAX` bytes.
    PayloadTooLarge,
    /// `36 + payload` does not fit in a `u32`.
    RiffSizeOverflow,
}

impl WavError {
    pub fn message(&self) -> (s: String)
        ensures
            s@ == wav_error_message(*self),
    {
        match self {
            WavError::InvalidMetadata => String::from_str("invalid pcm metadata"),
            WavError::ByteRateOverflow => String::from_str("wav byte rate overflow"),
            WavError::PayloadTooLarge => String::from_str("wav payload too large"),
            WavError::RiffSizeOverflow => String::from_str("wav riff size overflow"),
        }
    }
}

pub open spec fn wav_error_message(e: WavError) -> Seq<char> {
    match e {
        WavError::InvalidMetadata => "invalid pcm metadata"@,
        WavError::ByteRateOverflow => "wav byte rate overflow"@,
        WavError::PayloadTooLarge => "wav payload too large"@,
        WavError::RiffSizeOverflow => "wav riff size overflow"@,
    }
}

// ---------------------------------------------------------------------------
// Byte layout
// ---------------------------------------------------------------------------

pub open spec fn u16_le(v: nat) -> Seq<u8> {
    seq![(v % 256) as u8, ((v / 256) % 256) as u8]
}

pub open spec fn u32_le(v: nat) -> Seq<u8> {
    seq![
        (v % 256) as u8,
        ((v / 256) % 256) as u8,
        ((v / 65536) % 256) as u8,
        ((v / 16777216) % 256) as u8,
    ]
}

/// Two's-complement bits of a sample, as an unsigned 16-bit value.
pub open spec fn i16_bits(x: i16) -> nat {
    if x < 0 {
        (x + 65536) as nat
    } else {
        x as nat
    }
}

pub open spec fn pcm_bytes(samples: Seq<i16>) -> Seq<u8>
    decreases samples.len(),
{
    if samples.len() == 0 {
        Seq::empty()
    } else {
        pcm_bytes(samples.drop_last()) + u16_le(i16_bits(samples.last()))
    }
}

pub open spec fn tag_riff() -> Seq<u8> {
    seq![0x52u8, 0x49u8, 0x46u8, 0x46u8]
}

pub open spec fn tag_wave() -> Seq<u8> {
    seq![0x57u8, 0x41u8, 0x56u8, 0x45u8]
}

pub open spec fn tag_fmt() -> Seq<u8> {
    seq![0x66u8, 0x6du8, 0x74u8, 0x20u8]
}

pub open spec fn tag_data() -> Seq<u8> {
    seq![0x64u8, 0x61u8, 0x74u8, 0x61u8]
}

/// The 44-byte canonical header for 16-bit PCM.
pub open spec fn wav_header(channels: u16, sample_rate: u32, data_len: nat) -> Seq<u8> {
    tag_riff() + u32_le(36 + data_len) + tag_wave() + tag_fmt() + u32_le(16) + u16_le(1) + u16_le(
        channels as nat,
    ) + u32_le(sample_rate as nat) + u32_le((sample_rate * channels * 2) as nat) + u16_le(
        ((channels * 2) % 65536) as nat,
    ) + u16_le(16) + tag_data() + u32_le(data_len)
}

/// The whole WAVE image of `samples`.
pub open spec fn wav_image(channels: u16, sample_rate: u32, samples: Seq<i16>) -> Seq<u8> {
    wav_header(channels, sample_rate, 2 * samples.len()) + pcm_bytes(samples)
}

/// What `pcm_to_wav_bytes` returns for the given layout and samples.
pub open spec fn wav_result(channels: u16, sample_rate: u32, samples: Seq<i16>) -> Result<
    Seq<u8>,
    WavError,
> {
    if channels == 0 || sample_rate == 0 {
        Err(WavError::InvalidMetadata)
    } else if sample_rate * channels * 2 > u32::MAX {
        Err(WavError::ByteRateOverflow)
    } else if 2 * samples.len() > u32::MAX {
        Err(WavError::PayloadTooLarge)
    } else if 36 + 2 * samples.len() > u32::MAX {
        Err(WavError::RiffSizeOverflow)
    } else {
        Ok(wav_image(channels, sample_rate, samples))
    }
}

fn push_u16_le(out: &mut Vec<u8>, v: u32)
    requires
        v < 65536,
    ensures
        final(out)@ == old(out)@ + u16_le(v as nat),
{
    out.push((v % 256) as u8);
    out.push(((v / 256) % 256) as u8);
    assert(final(out)@ =~= old(out)@ + u16_le(v as nat));
}

fn push_u32_le(out: &mut Vec<u8>, v: u32)
    ensures
        final(out)@ == old(out)@ + u32_le(v as nat),
{
    out.push((v % 256) as u8);
    out.push(((v / 256) % 256) as u8);
    out.push(((v / 65536) % 256) as u8);
    out.push(((v / 16777216) % 256) as u8);
    assert(final(out)@ =~= old(out)@ + u32_le(v as nat));
}

fn push_tag(out: &mut Vec<u8>, a: u8, b: u8, c: u8, d: u8)
    ensures
        final(out)@ == old(out)@ + seq![a, b, c, d],
{
    out.push(a);
    out.push(b);
    out.push(c);
    out.push(d);
    assert(final(out)@ =~= old(out)@ + seq![a, b, c, d]);
}

/// Packs interleaved 16-bit samples into a canonical 44-byte-header WAVE file.
pub fn pcm_to_wav_bytes(audio: &DecodedAudio) -> (r: Result<Vec<u8>, WavError>)
    ensures
        match (r, wav_result(audio.channels, audio.sample_rate, audio.interleaved_i16@)) {
            (Ok(bytes), Ok(image)) => bytes@ == image,
            (Err(e), Err(f)) => e == f,
            _ => false,
        },
{
    if audio.channels == 0 || audio.sample_rate == 0 {
        return Err(WavError::InvalidMetadata);
    }
    let channels = audio.channels as u32;
    let sample_rate = audio.sample_rate;
    let byte_rate = match sample_rate.checked_mul(channels) {
        Some(v) => match v.checked_mul(2) {
            Some(w) => w,
            None => return Err(WavError::ByteRateOverflow),
        },
        None => {
            assert(sample_rate * channels * 2 > u32::MAX) by (nonlinear_arith)
                requires
                    sample_rate * channels > u32::MAX,
            ;
            return Err(WavError::ByteRateOverflow);
        },
    };
    let samples = &audio.interleaved_i16;
    let n = samples.len();
    if n > 2147483647 {
        return Err(WavError::PayloadTooLarge);
    }
    let data_len: u32 = (n * 2) as u32;
    if data_len > 4294967259 {
        return Err(WavError::RiffSizeOverflow);
    }
    let riff_len: u32 = 36 + data_len;
    let block_align: u32 = (channels * 2) % 65536;

    let mut out: Vec<u8> = Vec::new();
    push_tag(&mut out, 0x52, 0x49, 0x46, 0x46);
    push_u32_le(&mut out, riff_len);
    push_tag(&mut out, 0x57, 0x41, 0x56, 0x45);
    push_tag(&mut out, 0x66, 0x6d, 0x74, 0x20);
    push_u32_le(&mut out, 16);
    push_u16_le(&mut out, 1);
    push_u16_le(&mut out, channels);
    push_u32_le(&mut out, sample_rate);
    push_u32_le(&mut out, byte_rate);
    push_u16_le(&mut out, block_align);
    push_u16_le(&mut out, 16);
    push_tag(&mut out, 0x64, 0x61, 0x74, 0x61);
    push_u32_le(&mut out, data_len);
    let ghost header = out@;
    assert(header =~= wav_header(audio.channels, audio.sample_rate, 2 * samples@.len()));

    for i in 0..n
        invariant
            n == samples.len(),
            out@ == header + pcm_bytes(samples@.take(i as int)),
    {
        let s = samples[i];
        let bits: u32 = if s < 0 {
            (s as i32 + 65536) as u32
        } else {
            s as u32
        };
        push_u16_le(&mut out, bits);
        assert(samples@.take(i + 1).drop_last() == samples@.take(i as int));
        assert(out@ =~= header + pcm_bytes(samples@.take(i + 1)));
    }
    assert(samples@.take(n as int) == samples@);
    Ok(out)
}

/// Why an audio entry could not be turned into a WAVE image.
#[derive(Debug)]
pub enum WemError {
    /// The decoder failed on the entry at `path`, for the reason given.
    Decode { path: String, reason: String },
    /// The decoded samples could not be packed.
    Wav(WavError),
}

impl WemError {
    pub fn message(&self) -> (s: String)
        ensures
            s@ == wem_error_message(self),
    {
        match self {
            WemError::Decode { path, .. } => {
                let mut s = String::from_str("failed decoding wem '");
                s.append(path.as_str());
                s.append("'");
                s
            },
            WemError::Wav(e) => e.message(),
        }
    }
}

pub open spec fn wem_error_message(e: &WemError) -> Seq<char> {
    match e {
        WemError::Decode { path, .. } => "failed decoding wem '"@ + path@ + "'"@,
        WemError::Wav(w) => wav_error_message(*w),
    }
}

/// The WAVE image of the audio entry at `path`; `decode` turns the entry into
/// samples.
pub fn decode_wem_to_wav<F: FnOnce(&str) -> Result<DecodedAudio, String>>(path: &str, decode: F) -> (r: Result<Vec<u8>, WemError>)
    requires
        call_requires(decode, (path,)),
    ensures
        match r {
            Ok(bytes) => exists|a: DecodedAudio|
                call_ensures(decode, (path,), Ok(a)) && #[trigger] wav_result(a.channels, a.sample_rate, a.interleaved_i16@)
                    == Ok::<Seq<u8>, WavError>(bytes@),
            Err(WemError::Decode { path: p, reason }) => p@ == path@ && call_ensures(decode, (path,), Err(reason)),
            Err(WemError::Wav(e)) => exists|a: DecodedAudio|
                call_ensures(decode, (path,), Ok(a)) && #[trigger] wav_result(a.channels, a.sample_rate, a.interleaved_i16@)
                    == Err::<Seq<u8>, WavError>(e),
        },
{
    match decode(path) {
        Ok(audio) => match pcm_to_wav_bytes(&audio) {
            Ok(bytes) => Ok(bytes),
            Err(e) => Err(WemError::Wav(e)),
        },
        Err(reason) => Err(WemError::Decode { path: path.to_owned(), reason }),
    }
}

// ---------------------------------------------------------------------------
// Reading the image back
// ---------------------------------------------------------------------------

pub open spec fn read_u16_le(b: Seq<u8>, off: int) -> nat {
    (b[off] + 256 * b[off + 1]) as nat
}

pub open spec fn read_u32_le(b: Seq<u8>, off: int) -> nat {
    (b[off] + 256 * b[off + 1] + 65536 * b[off + 2] + 16777216 * b[off + 3]) as nat
}

/// The sample whose two's-complement bits are `bits`.
pub open spec fn sample_of_bits(bits: nat) -> int {
    if bits >= 32768 {
        bits - 65536
    } else {
        bits as int
    }
}

proof fn lemma_u16_le_read(v: nat)
    requires
        v < 65536,
    ensures
        read_u16_le(u16_le(v), 0) == v,
{
    let b = u16_le(v);
    assert(v == (v % 256) + 256 * ((v / 256) % 256)) by (nonlinear_arith)
        requires
            v < 65536,
    ;
}

proof fn lemma_u32_le_read(v: nat)
    requires
        v <= u32::MAX,
    ensures
        read_u32_le(u32_le(v), 0) == v,
{
    assert(v == (v % 256) + 256 * ((v / 256) % 256) + 65536 * ((v / 65536) % 256) + 16777216 * ((
    v / 16777216) % 256)) by (nonlinear_arith)
        requires
            v <= u32::MAX,
    ;
}

proof fn lemma_pcm_bytes_shape(samples: Seq<i16>, i: int)
    requires
        0 <= i < samples.len(),
    ensures
        pcm_bytes(samples).len() == 2 * samples.len(),
        pcm_bytes(samples).subrange(2 * i, 2 * i + 2) == u16_le(i16_bits(samples[i])),
    decreases samples.len(),
{
    let pre = samples.drop_last();
    lemma_pcm_len(pre);
    if i < samples.len() - 1 {
        lemma_pcm_bytes_shape(pre, i);
        assert(pcm_bytes(samples).subrange(2 * i, 2 * i + 2) =~= pcm_bytes(pre).subrange(
            2 * i,
            2 * i + 2,
        ));
    } else {
        assert(pcm_bytes(samples).subrange(2 * i, 2 * i + 2) =~= u16_le(i16_bits(samples[i])));
    }
}

proof fn lemma_pcm_len(samples: Seq<i16>)
    ensures
        pcm_bytes(samples).len() == 2 * samples.len(),
    decreases samples.len(),
{
    if samples.len() > 0 {
        lemma_pcm_len(samples.drop_last());
    }
}

/// Reading the header and payload of a successfully produced image gives back
/// the layout and every sample: the RIFF size is `36 + payload`, the format is
/// PCM with the given channel count and rate, the payload is two bytes per
/// sample, and each little-endian pair decodes to the sample that produced it.
pub proof fn wav_image_reads_back(channels: u16, sample_rate: u32, samples: Seq<i16>)
    requires
        wav_result(channels, sample_rate, samples) is Ok,
    ensures
        ({
            let img = wav_result(channels, sample_rate, samples)->Ok_0;
            &&& img.len() == 44 + 2 * samples.len()
            &&& img.subrange(0, 4) == tag_riff()
            &&& read_u32_le(img, 4) == 36 + 2 * samples.len()
            &&& img.subrange(8, 12) == tag_wave()
            &&& read_u16_le(img, 20) == 1
            &&& read_u16_le(img, 22) == channels
            &&& read_u32_le(img, 24) == sample_rate
            &&& read_u32_le(img, 28) == sample_rate * channels * 2
            &&& read_u16_le(img, 34) == 16
            &&& img.subrange(36, 40) == tag_data()
            &&& read_u32_le(img, 40) == 2 * samples.len()
            &&& forall|i: int|
                0 <= i < samples.len() ==> sample_of_bits(#[trigger] read_u16_le(img, 44 + 2 * i))
                    == samples[i]
        }),
{
    let img = wav_image(channels, sample_rate, samples);
    let n = samples.len();
    let h = wav_header(channels, sample_rate, 2 * n);
    lemma_pcm_len(samples);
    assert(h.len() == 44);
    lemma_u32_le_read(36 + 2 * n);
    lemma_u16_le_read(1);
    lemma_u16_le_read(channels as nat);
    lemma_u32_le_read(sample_rate as nat);
    lemma_u32_le_read((sample_rate * channels * 2) as nat);
    lemma_u16_le_read(16);
    lemma_u32_le_read(2 * n);
    assert(read_u32_le(img, 4) == read_u32_le(u32_le(36 + 2 * n), 0));
    assert(read_u16_le(img, 20) == read_u16_le(u16_le(1), 0));
    assert(read_u16_le(img, 22) == read_u16_le(u16_le(channels as nat), 0));
    assert(read_u32_le(img, 24) == read_u32_le(u32_le(sample_rate as nat), 0));
    assert(read_u32_le(img, 28) == read_u32_le(u32_le((sample_rate * channels * 2) as nat), 0));
    assert(read_u16_le(img, 34) == read_u16_le(u16_le(16), 0));
    assert(read_u32_le(img, 40) == read_u32_le(u32_le(2 * n), 0));
    assert(img.subrange(0, 4) =~= tag_riff());
    assert(img.subrange(8, 12) =~= tag_wave());
    assert(img.subrange(36, 40) =~= tag_data());
    assert forall|i: int| 0 <= i < n implies sample_of_bits(#[trigger] read_u16_le(img, 44 + 2 * i))
        == samples[i] by {
        lemma_pcm_bytes_shape(samples, i);
        let p = pcm_bytes(samples);
        let bits = i16_bits(samples[i]);
        lemma_u16_le_read(bits);
        assert(img[44 + 2 * i] == p[2 * i]);
        assert(img[44 + 2 * i + 1] == p[2 * i + 1]);
        assert(p[2 * i] == p.subrange(2 * i, 2 * i + 2)[0]);
        assert(p[2 * i + 1] == p.subrange(2 * i, 2 * i + 2)[1]);
        assert(read_u16_le(img, 44 + 2 * i) == read_u16_le(u16_le(bits), 0));
    }
}

} // verus!
