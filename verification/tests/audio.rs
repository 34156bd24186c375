use audin::utils::audio::{load_wav, read_wav_batches, read_wav_header, WavError, WavInfo};
use audin::utils::pcm::{load_raw_pcm, neighbours, pcm_batches, pcm_to_mono, PcmReader};

/// The amplitude of a sample.
fn amplitude(sample: i16) -> f32 {
    sample as f32 / 32768.0
}

/// The amplitude of a mono sample.
fn mean(sum: i32, channels: u16) -> f32 {
    sum as f32 / 32768.0 / channels as f32
}

fn pcm(samples: &[i16]) -> Vec<u8> {
    samples.iter().flat_map(|s| s.to_le_bytes()).collect()
}

fn chunk(id: &[u8; 4], body: &[u8]) -> Vec<u8> {
    let mut out = id.to_vec();
    out.extend_from_slice(&(body.len() as u32).to_le_bytes());
    out.extend_from_slice(body);
    if body.len() % 2 == 1 {
        out.push(0);
    }
    out
}

fn fmt(format: u16, channels: u16, rate: u32, bits: u16) -> Vec<u8> {
    let mut body = Vec::new();
    body.extend_from_slice(&format.to_le_bytes());
    body.extend_from_slice(&channels.to_le_bytes());
    body.extend_from_slice(&rate.to_le_bytes());
    body.extend_from_slice(&(rate * 4).to_le_bytes());
    body.extend_from_slice(&(channels * 2).to_le_bytes());
    body.extend_from_slice(&bits.to_le_bytes());
    chunk(b"fmt ", &body)
}

fn riff(chunks: &[Vec<u8>]) -> Vec<u8> {
    let body: Vec<u8> = chunks.concat();
    let mut out = b"RIFF".to_vec();
    out.extend_from_slice(&(4 + body.len() as u32).to_le_bytes());
    out.extend_from_slice(b"WAVE");
    out.extend_from_slice(&body);
    out
}

#[test]
fn load_raw_pcm_roundtrip() {
    // A single 16-bit sample at max amplitude (32767)
    let raw = 32767i16.to_le_bytes().to_vec();
    let samples: Vec<f32> = load_raw_pcm(&raw).into_iter().map(amplitude).collect();
    assert_eq!(samples.len(), 1);
    assert!((samples[0] - 1.0).abs() < 0.001);
}

#[test]
fn load_raw_pcm_silence() {
    let raw = vec![0u8; 1024]; // 512 samples of silence
    let samples: Vec<f32> = load_raw_pcm(&raw).into_iter().map(amplitude).collect();
    assert_eq!(samples.len(), 512);
    assert!(samples.iter().all(|&s| s == 0.0));
}

#[test]
fn pcm_to_f32_stereo_to_mono() {
    // Two sample frames: each frame has 2 channels, 2 bytes per channel
    // Frame 1: left=32767, right=0
    // Frame 2: left=-32768, right=32767
    let mut raw = Vec::new();
    raw.extend_from_slice(&32767i16.to_le_bytes());
    raw.extend_from_slice(&0i16.to_le_bytes());
    raw.extend_from_slice(&(-32768i16).to_le_bytes());
    raw.extend_from_slice(&32767i16.to_le_bytes());

    let sums = pcm_to_mono(&raw, 2, 16);
    assert_eq!(sums, vec![32767, -1]);
    let mono: Vec<f32> = sums.into_iter().map(|s| mean(s, 2)).collect();
    assert_eq!(mono.len(), 2);
    assert!((mono[0] - 0.5).abs() < 0.001);
    assert!((mono[1] - 0.0).abs() < 0.001);
}

#[test]
fn every_sample_round_trips() {
    let all: Vec<i16> = (i16::MIN..=i16::MAX).collect();
    assert_eq!(load_raw_pcm(&pcm(&all)), all);
}

#[test]
fn odd_trailing_byte_is_ignored() {
    assert_eq!(load_raw_pcm(&[1, 0xff, 3]), vec![-255]);
    assert_eq!(load_raw_pcm(&[7]), Vec::<i16>::new());
}

#[test]
fn incomplete_frame_is_summed_as_it_is() {
    assert_eq!(pcm_to_mono(&pcm(&[1, 2, 3, 4, 5]), 3, 16), vec![6, 9]);
    assert_eq!(pcm_to_mono(&pcm(&[1, 2, 3]), 1, 16), vec![1, 2, 3]);
}

#[test]
fn other_bit_depths_decode_to_nothing() {
    assert_eq!(pcm_to_mono(&[1, 2, 3, 4], 1, 8), Vec::<i32>::new());
    assert_eq!(pcm_to_mono(&[1, 2, 3, 4], 0, 24), Vec::<i32>::new());
}

#[test]
fn loudest_frame_of_all_channels_fits() {
    let quiet = pcm(&vec![i16::MIN; 65_535]);
    assert_eq!(pcm_to_mono(&quiet, 65_535, 16), vec![-2_147_450_880]);
    assert_eq!(mean(-2_147_450_880, 65_535), -1.0);
}

#[test]
fn canonical_header_is_read() {
    let file = riff(&[fmt(1, 2, 44_100, 16), chunk(b"data", &[1, 2, 3, 4])]);
    assert_eq!(
        read_wav_header(&file),
        Ok(WavInfo {
            sample_rate: 44_100,
            channels: 2,
            bits_per_sample: 16,
            data_offset: 44,
            data_len: 4,
        })
    );
    let audio = load_wav(&file).unwrap();
    assert_eq!(audio.sample_rate, 44_100);
    assert_eq!(audio.channels, 2);
    assert_eq!(audio.sums, vec![0x201 + 0x403]);
}

#[test]
fn unknown_chunks_are_skipped() {
    let list = chunk(b"LIST", b"odd");
    let data = chunk(b"data", &pcm(&[5, -6]));
    let plain = riff(&[fmt(1, 1, 8_000, 16), data.clone()]);
    let first = riff(&[list.clone(), fmt(1, 1, 8_000, 16), data.clone()]);
    let between = riff(&[fmt(1, 1, 8_000, 16), list.clone(), data.clone()]);
    let last = riff(&[fmt(1, 1, 8_000, 16), data, list.clone()]);
    assert_eq!(list.len(), 12);
    for (file, offset) in [(plain, 44), (first, 56), (between, 56), (last, 44)] {
        let info = read_wav_header(&file).unwrap();
        assert_eq!(info.data_offset, offset);
        assert_eq!(info.data_len, 4);
        assert_eq!(load_wav(&file).unwrap().sums, vec![5, -6]);
    }
}

#[test]
fn last_fmt_and_data_chunks_count() {
    let file = riff(&[
        fmt(3, 9, 1, 8),
        chunk(b"data", &[9; 6]),
        fmt(1, 1, 16_000, 16),
        chunk(b"data", &pcm(&[7])),
    ]);
    let audio = load_wav(&file).unwrap();
    assert_eq!((audio.sample_rate, audio.channels), (16_000, 1));
    assert_eq!(audio.sums, vec![7]);
}

#[test]
fn truncated_chunk_ends_the_list() {
    let mut file = riff(&[fmt(1, 1, 16_000, 16), chunk(b"data", &pcm(&[1, 2, 3, 4]))]);
    file.pop();
    assert_eq!(read_wav_header(&file).unwrap().data_len, 0);
    assert_eq!(read_wav_header(&file).unwrap().data_offset, 0);
    assert_eq!(load_wav(&file).unwrap_err(), WavError::MissingData);
}

#[test]
fn odd_last_chunk_needs_no_padding() {
    let mut file = riff(&[fmt(1, 1, 16_000, 16), chunk(b"data", &[1, 2, 3])]);
    file.pop();
    assert_eq!(read_wav_header(&file).unwrap().data_len, 3);
    assert_eq!(load_wav(&file).unwrap().sums, vec![0x201]);
}

#[test]
fn signature_is_checked() {
    let good = riff(&[fmt(1, 1, 16_000, 16), chunk(b"data", &[])]);
    assert_eq!(good.len(), 44);
    assert!(read_wav_header(&good).is_ok());
    assert_eq!(read_wav_header(&good[..43]), Err(WavError::NotWav));
    assert_eq!(read_wav_header(&[]), Err(WavError::NotWav));
    for i in [0, 3, 8, 11] {
        let mut bad = good.clone();
        bad[i] ^= 1;
        assert_eq!(read_wav_header(&bad), Err(WavError::NotWav));
        assert_eq!(load_wav(&bad).unwrap_err(), WavError::NotWav);
    }
}

#[test]
fn each_error_has_its_input() {
    let data = chunk(b"data", &[0; 20]);
    let short = riff(&[chunk(b"fmt ", &[0; 14]), data.clone()]);
    assert_eq!(read_wav_header(&short), Err(WavError::FmtTooSmall));
    assert_eq!(load_wav(&short).unwrap_err(), WavError::FmtTooSmall);

    // A short chunk is refused even where a good one stands beside it.
    let both = riff(&[fmt(1, 1, 1, 16), chunk(b"fmt ", &[]), data.clone()]);
    assert_eq!(read_wav_header(&both), Err(WavError::FmtTooSmall));

    let no_fmt = riff(&[data.clone(), chunk(b"LIST", &[0; 8])]);
    assert_eq!(read_wav_header(&no_fmt), Err(WavError::MissingFmt));
    assert_eq!(load_wav(&no_fmt).unwrap_err(), WavError::MissingFmt);

    let no_data = riff(&[fmt(3, 1, 1, 16), chunk(b"LIST", &[0; 8])]);
    assert_eq!(read_wav_header(&no_data), Err(WavError::UnsupportedFormat(3)));
    assert_eq!(load_wav(&no_data).unwrap_err(), WavError::MissingData);

    let float = riff(&[fmt(3, 1, 1, 32), data.clone()]);
    assert_eq!(read_wav_header(&float), Err(WavError::UnsupportedFormat(3)));
    assert_eq!(load_wav(&float).unwrap_err(), WavError::UnsupportedFormat(3));

    let wide = riff(&[fmt(1, 1, 1, 24), data]);
    assert_eq!(read_wav_header(&wide).unwrap().bits_per_sample, 24);
    assert_eq!(load_wav(&wide).unwrap_err(), WavError::UnsupportedBits(24));
    assert_eq!(read_wav_batches(&wide).unwrap_err(), WavError::UnsupportedStreamBits(24));
}

#[test]
fn error_messages() {
    assert_eq!(WavError::NotWav.message(), "not a valid RIFF/WAV file");
    assert_eq!(WavError::FmtTooSmall.message(), "fmt chunk too small");
    assert_eq!(WavError::MissingFmt.message(), "missing fmt chunk in WAV file");
    assert_eq!(WavError::MissingData.message(), "missing data chunk in WAV file");
    assert_eq!(
        WavError::UnsupportedFormat(65_534).message(),
        "only PCM WAV (format 1) is supported, got format 65534"
    );
    assert_eq!(
        WavError::UnsupportedBits(8).message(),
        "only 16-bit PCM is supported, got 8 bits"
    );
    assert_eq!(
        WavError::UnsupportedStreamBits(120).message(),
        "only 16-bit PCM is supported for streaming, got 120 bits"
    );
}

#[test]
fn batches_hold_whole_frames() {
    // Three channels are six bytes a frame: 682 frames to a batch.
    let samples: Vec<i16> = (0..3 * 1_500 + 2).map(|n| n as i16).collect();
    let raw = pcm(&samples);
    let batches = pcm_batches(&raw, 3);
    let sizes: Vec<usize> = batches.iter().map(|b| b.len()).collect();
    assert_eq!(sizes, vec![682, 682, 136]);
    let whole = pcm_to_mono(&raw, 3, 16);
    assert_eq!(whole.len(), 1_501);
    assert_eq!(batches.concat(), whole[..1_500].to_vec());
}

#[test]
fn streaming_gives_the_loaded_samples() {
    let samples: Vec<i16> = (0..5_001).map(|n| (n * 7) as i16).collect();
    let file = riff(&[fmt(1, 2, 16_000, 16), chunk(b"data", &pcm(&samples))]);
    let stream = read_wav_batches(&file).unwrap();
    let audio = load_wav(&file).unwrap();
    assert_eq!(stream.channels, 2);
    assert_eq!(audio.sums.len(), 2_501);
    assert_eq!(stream.batches.concat(), audio.sums[..2_500].to_vec());
}

#[test]
fn frame_longer_than_a_batch_gives_no_batches() {
    let raw = vec![1u8; 20_000];
    assert_eq!(pcm_batches(&raw, 2_048).len(), 4);
    assert_eq!(pcm_batches(&raw, 2_049).len(), 0);
}

#[test]
fn missing_data_streams_nothing() {
    let file = riff(&[fmt(1, 1, 16_000, 16), chunk(b"LIST", &[0; 8])]);
    let stream = read_wav_batches(&file).unwrap();
    assert!(stream.batches.is_empty());
}

#[test]
fn raw_pcm_in_parts_of_whole_samples_decodes_alike() {
    let raw: Vec<u8> = (0..41).map(|n| n * 5).collect();
    let whole = load_raw_pcm(&raw);
    for cut in (0..=40).step_by(2) {
        let mut parts = load_raw_pcm(&raw[..cut]);
        parts.extend(load_raw_pcm(&raw[cut..]));
        assert_eq!(parts, whole);
    }
}

#[test]
fn mono_samples_stay_within_full_scale() {
    for channels in [1u16, 2, 3, 7] {
        let raw = pcm(&[i16::MIN, i16::MAX, i16::MIN, i16::MIN, i16::MAX, 0, -1, i16::MIN]);
        for sum in pcm_to_mono(&raw, channels, 16) {
            assert!(mean(sum, channels).abs() <= 1.0);
        }
    }
}

#[test]
fn header_and_audio_agree() {
    let file = riff(&[chunk(b"data", &pcm(&[4, 5, 6])), fmt(1, 2, 22_050, 16)]);
    let info = read_wav_header(&file).unwrap();
    let audio = load_wav(&file).unwrap();
    assert_eq!(info.data_offset, 20);
    assert_eq!((info.sample_rate, info.channels), (audio.sample_rate, audio.channels));
    let data = &file[info.data_offset..info.data_offset + info.data_len];
    assert_eq!(pcm_to_mono(data, info.channels, info.bits_per_sample), audio.sums);
    assert_eq!(audio.sums, vec![9, 6]);
}

#[test]
fn interpolation_stays_within_the_audio() {
    assert_eq!(neighbours(0, 3), (0, 1));
    assert_eq!(neighbours(1, 3), (1, 2));
    assert_eq!(neighbours(2, 3), (2, 2));
    assert_eq!(neighbours(9, 3), (2, 2));
    assert_eq!(neighbours(usize::MAX, 1), (0, 0));
}

#[test]
fn sample_across_two_reads_is_decoded() {
    let mut reader = PcmReader::new();
    assert_eq!(reader.on_read(&[0x01, 0x02, 0x03]), vec![0x0201]);
    assert_eq!(reader.on_read(&[]), Vec::<i16>::new());
    assert_eq!(reader.on_read(&[0xff]), vec![-253]);
    assert_eq!(reader.on_read(&[0x05]), Vec::<i16>::new());
    assert_eq!(reader.on_read(&[0x06, 0x07]), vec![0x0605]);
    assert_eq!(reader.on_read(&[0x08]), vec![0x0807]);
}

#[test]
fn reads_of_any_length_decode_all_samples() {
    let samples: Vec<i16> = (0..50).map(|n| n * 601 - 15_000).collect();
    let mut raw = pcm(&samples);
    raw.push(7);
    for size in 1..=raw.len() {
        let mut reader = PcmReader::new();
        let decoded: Vec<i16> = raw.chunks(size).flat_map(|read| reader.on_read(read)).collect();
        assert_eq!(decoded, samples);
        assert_eq!(decoded, load_raw_pcm(&raw));
    }
}

#[test]
fn padding_byte_may_be_anything() {
    let plain = riff(&[fmt(1, 1, 8_000, 16), chunk(b"data", &pcm(&[1, -2, 3, -4]))]);
    let mut list = chunk(b"LIST", b"odd");
    *list.last_mut().unwrap() = 0xd6;
    let file = riff(&[fmt(1, 1, 8_000, 16), list, chunk(b"data", &pcm(&[1, -2, 3, -4]))]);
    assert_eq!(load_wav(&file).unwrap().sums, vec![1, -2, 3, -4]);
    assert_eq!(
        read_wav_header(&file).unwrap().data_offset,
        read_wav_header(&plain).unwrap().data_offset + 12
    );
}

#[test]
fn header_ignores_riff_size_and_pcm_bytes() {
    let file = riff(&[
        fmt(1, 2, 8_000, 16),
        chunk(b"LIST", b"odd"),
        chunk(b"data", &pcm(&[1, -2, 3, -4])),
    ]);
    let header = read_wav_header(&file).unwrap();
    let mut other = file.clone();
    other[4..8].copy_from_slice(&[0xff; 4]);
    assert_eq!(load_wav(&other).unwrap().sums, load_wav(&file).unwrap().sums);
    // The body and the padding of the unknown chunk, then the samples.
    other[44..48].copy_from_slice(b"fmt ");
    other[header.data_offset..].copy_from_slice(b"data\xff\xff\xff\x7f");
    assert_eq!(read_wav_header(&other).unwrap(), header);
    // The identifier of a chunk does matter.
    other[36..40].copy_from_slice(b"fmt ");
    assert_eq!(read_wav_header(&other), Err(WavError::FmtTooSmall));
}
