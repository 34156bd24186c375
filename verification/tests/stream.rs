use audin::pipeline::stream::{FinalStep, Step, StreamConfig, StreamTranscriber};
use audin::utils::audio::{load_wav, read_wav_batches};

#[test]
fn config_default_values() {
    let cfg = StreamConfig::default();
    assert_eq!(cfg.chunk_duration_ms, 10_000);
    assert_eq!(cfg.overlap_ms, 2_000);
    assert_eq!(cfg.sample_rate, 16_000);
}

#[test]
fn config_sample_counts() {
    let cfg = StreamConfig {
        chunk_duration_ms: 10_000,
        overlap_ms: 2_000,
        sample_rate: 16_000,
    };
    assert_eq!(cfg.chunk_samples(), 160_000);
    assert_eq!(cfg.overlap_samples(), 32_000);
    assert_eq!(cfg.stride_samples(), 128_000);
}

#[test]
fn initial_transcription_is_empty() {
    let cfg = StreamConfig::default();
    assert_eq!(cfg.chunk_samples(), 160_000);
    let transcriber = StreamTranscriber::<f32>::new(cfg);
    assert_eq!(transcriber.current_transcription(), "");
    assert_eq!(transcriber.config().sample_rate, 16_000);
}

#[test]
fn sample_counts_round_down() {
    let cfg = StreamConfig {
        chunk_duration_ms: 1,
        overlap_ms: 0,
        sample_rate: 44_100,
    };
    assert_eq!(cfg.chunk_samples(), 44);
    assert_eq!(cfg.overlap_samples(), 0);
    assert_eq!(cfg.stride_samples(), 44);
}

/// Four samples per chunk, of which one overlaps.
fn small() -> StreamConfig {
    StreamConfig {
        chunk_duration_ms: 1_000,
        overlap_ms: 250,
        sample_rate: 4,
    }
}

/// A model that names each sample.
fn name(audio: &[i32]) -> String {
    audio.iter().map(|s| format!("w{s}")).collect::<Vec<_>>().join(" ")
}

fn drive(t: &mut StreamTranscriber<i32>, samples: &[i32]) -> Option<String> {
    let mut step = t.push_audio(samples);
    loop {
        match step {
            Step::Transcribe(chunk) => step = t.accept_chunk_text(name(&chunk)),
            Step::Done(interim) => return interim,
        }
    }
}

fn finish(t: &mut StreamTranscriber<i32>) -> String {
    match t.finalize() {
        FinalStep::Transcribe(rest) => t.accept_final_text(name(&rest)),
        FinalStep::Done(text) => text,
    }
}

#[test]
fn short_audio_waits_for_more() {
    let mut t = StreamTranscriber::new(small());
    assert!(matches!(t.push_audio(&[1, 2, 3]), Step::Done(None)));
    assert_eq!(t.current_transcription(), "");
}

#[test]
fn chunks_overlap_by_the_configured_overlap() {
    let mut t = StreamTranscriber::new(small());
    let first = match t.push_audio(&[1, 2, 3, 4, 5, 6, 7, 8]) {
        Step::Transcribe(chunk) => chunk,
        Step::Done(_) => panic!("a chunk was due"),
    };
    assert_eq!(first, vec![1, 2, 3, 4]);
    let second = match t.accept_chunk_text("one".to_string()) {
        Step::Transcribe(chunk) => chunk,
        Step::Done(_) => panic!("a chunk was due"),
    };
    assert_eq!(second, vec![4, 5, 6, 7]);
    match t.accept_chunk_text("one two".to_string()) {
        Step::Done(Some(interim)) => assert_eq!(interim, "one two"),
        _ => panic!("no further chunk was due"),
    }
    assert_eq!(t.current_transcription(), "one two");
}

#[test]
fn repeated_words_are_dropped() {
    let mut t = StreamTranscriber::new(small());
    assert_eq!(drive(&mut t, &[1, 2, 3, 4, 5, 6, 7]).unwrap(), "w1 w2 w3 w4 w5 w6 w7");
    assert_eq!(drive(&mut t, &[8]), None);
    assert_eq!(finish(&mut t), "w1 w2 w3 w4 w5 w6 w7 w8");
}

#[test]
fn empty_chunk_text_adds_nothing() {
    let mut t = StreamTranscriber::new(small());
    t.push_audio(&[1, 2, 3, 4]);
    match t.accept_chunk_text(String::new()) {
        Step::Done(Some(interim)) => assert_eq!(interim, ""),
        _ => panic!("no further chunk was due"),
    }
    t.push_audio(&[5, 6, 7]);
    match t.accept_chunk_text("a".to_string()) {
        Step::Done(Some(interim)) => assert_eq!(interim, "a"),
        _ => panic!("no further chunk was due"),
    }
}

#[test]
fn cutting_the_audio_does_not_matter() {
    let audio: Vec<i32> = (0..23).collect();
    let mut whole = StreamTranscriber::new(small());
    drive(&mut whole, &audio);
    for size in 1..=audio.len() {
        let mut cut = StreamTranscriber::new(small());
        for part in audio.chunks(size) {
            drive(&mut cut, part);
        }
        assert_eq!(cut.current_transcription(), whole.current_transcription());
        let mut again = StreamTranscriber::new(small());
        drive(&mut again, &audio);
        assert_eq!(finish(&mut cut), finish(&mut again));
    }
}

#[test]
fn failed_chunk_is_passed_over() {
    let mut t = StreamTranscriber::new(small());
    assert!(matches!(t.push_audio(&[1, 2, 3, 4]), Step::Transcribe(_)));
    // No text comes back for the chunk; the next push goes on behind it.
    match t.push_audio(&[5, 6, 7]) {
        Step::Transcribe(chunk) => assert_eq!(chunk, vec![4, 5, 6, 7]),
        Step::Done(_) => panic!("a chunk was due"),
    }
}

#[test]
fn finalize_flushes_half_a_second() {
    // Half a second is two samples.
    let mut t = StreamTranscriber::new(small());
    drive(&mut t, &[1]);
    match t.finalize() {
        FinalStep::Done(text) => assert_eq!(text, ""),
        FinalStep::Transcribe(_) => panic!("too little audio was left"),
    }
    let mut t = StreamTranscriber::new(small());
    drive(&mut t, &[1, 2]);
    match t.finalize() {
        FinalStep::Transcribe(rest) => assert_eq!(rest, vec![1, 2]),
        FinalStep::Done(_) => panic!("enough audio was left"),
    }
    assert_eq!(t.accept_final_text("a b".to_string()), "a b");
}

#[test]
fn finalize_twice_gives_the_same_text() {
    let mut t = StreamTranscriber::new(small());
    drive(&mut t, &[1, 2, 3, 4, 5, 6]);
    let first = finish(&mut t);
    assert_eq!(first, "w1 w2 w3 w4 w5 w6");
    match t.finalize() {
        FinalStep::Done(text) => assert_eq!(text, first),
        FinalStep::Transcribe(_) => panic!("the stream was finalized before"),
    }
}

#[test]
fn reset_starts_a_new_stream() {
    let mut t = StreamTranscriber::new(small());
    drive(&mut t, &[1, 2, 3, 4, 5, 6]);
    finish(&mut t);
    t.reset();
    assert_eq!(t.current_transcription(), "");
    assert_eq!(t.config().chunk_duration_ms, 1_000);
    assert_eq!(drive(&mut t, &[4, 5, 6, 7]).unwrap(), "w4 w5 w6 w7");
    assert_eq!(finish(&mut t), "w4 w5 w6 w7");
}

#[test]
fn overlap_longer_than_a_chunk_cannot_be_cut() {
    let cfg = StreamConfig {
        chunk_duration_ms: 1_000,
        overlap_ms: 2_000,
        sample_rate: 4,
    };
    assert!(!cfg.can_cut());
    let mut t = StreamTranscriber::<i32>::new(cfg);
    assert!(t.can_process(3));
    assert!(!t.can_process(4));
    t.push_audio(&[1, 2, 3]);
    assert!(t.can_process(0));
    assert!(!t.can_process(1));
}

#[test]
fn overlap_as_long_as_a_chunk_can_be_cut() {
    let cfg = StreamConfig {
        chunk_duration_ms: 500,
        overlap_ms: 500,
        sample_rate: 4,
    };
    assert!(cfg.can_cut());
    assert_eq!(cfg.stride_samples(), 0);
}

#[test]
fn lengths_beyond_64_bits_cannot_be_processed() {
    let cfg = StreamConfig {
        chunk_duration_ms: u64::MAX,
        overlap_ms: 0,
        sample_rate: 2,
    };
    assert!(!cfg.can_cut());
    assert!(!StreamTranscriber::<i32>::new(cfg).can_process(0));
    let cfg = StreamConfig {
        chunk_duration_ms: u64::MAX,
        overlap_ms: 0,
        sample_rate: 1,
    };
    assert!(cfg.can_cut());
    assert!(StreamTranscriber::<i32>::new(cfg).can_process(usize::MAX / 1000));
}

#[test]
fn chunks_start_at_multiples_of_the_stride() {
    let audio: Vec<i32> = (0..20).collect();
    let mut t = StreamTranscriber::new(small());
    let mut starts = Vec::new();
    let mut step = t.push_audio(&audio);
    while let Step::Transcribe(chunk) = step {
        starts.push(chunk[0]);
        step = t.accept_chunk_text(String::new());
    }
    assert_eq!(starts, vec![0, 3, 6, 9, 12, 15]);
    match t.finalize() {
        FinalStep::Transcribe(rest) => assert_eq!(rest, vec![18, 19]),
        FinalStep::Done(_) => panic!("half a second was left"),
    }
}

#[test]
fn wav_file_streams_like_its_samples() {
    let mut file = b"RIFF\0\0\0\0WAVEfmt ".to_vec();
    file.extend_from_slice(&16u32.to_le_bytes());
    file.extend_from_slice(&[1, 0, 1, 0, 4, 0, 0, 0, 8, 0, 0, 0, 2, 0, 16, 0]);
    file.extend_from_slice(b"data");
    let samples: Vec<u8> = (0..9_000u32).flat_map(|n| (n as i16).to_le_bytes()).collect();
    file.extend_from_slice(&(samples.len() as u32).to_le_bytes());
    file.extend_from_slice(&samples);

    let batches = read_wav_batches(&file).unwrap().batches;
    assert_eq!(batches.len(), 5);
    let mut streamed = StreamTranscriber::new(small());
    for batch in &batches {
        drive(&mut streamed, batch);
    }
    let mut whole = StreamTranscriber::new(small());
    drive(&mut whole, &load_wav(&file).unwrap().sums);
    assert_eq!(streamed.current_transcription(), whole.current_transcription());
    assert_eq!(finish(&mut streamed), finish(&mut whole));
}

/// A model that names each sample, and fails on one.
fn name_unless(bad: i32, audio: &[i32]) -> Result<String, String> {
    if audio.contains(&bad) {
        Err(format!("cannot hear {bad}"))
    } else {
        Ok(name(audio))
    }
}

#[test]
fn model_is_run_on_every_chunk() {
    let mut t = StreamTranscriber::new(small());
    let model = |audio: Vec<i32>| name_unless(-1, &audio);
    assert_eq!(t.push_audio_with(&[1, 2, 3], model), Ok(None));
    assert_eq!(
        t.push_audio_with(&[4, 5, 6, 7, 8], model),
        Ok(Some("w1 w2 w3 w4 w5 w6 w7".to_string()))
    );
    assert_eq!(t.finalize_with(model), Ok("w1 w2 w3 w4 w5 w6 w7 w8".to_string()));
    // Nothing is transcribed twice.
    assert_eq!(
        t.finalize_with(|_: Vec<i32>| Err::<String, String>("run".to_string())),
        Ok("w1 w2 w3 w4 w5 w6 w7 w8".to_string())
    );
}

#[test]
fn model_error_ends_the_run() {
    let mut t = StreamTranscriber::new(small());
    let model = |audio: Vec<i32>| name_unless(6, &audio);
    assert_eq!(
        t.push_audio_with(&[1, 2, 3, 4, 5, 6, 7, 8, 9, 10], model),
        Err("cannot hear 6".to_string())
    );
    // The text before the failure stays, and the failed chunk is passed over.
    assert_eq!(t.current_transcription(), "w1 w2 w3 w4");
    assert_eq!(
        t.push_audio_with(&[], model),
        Ok(Some("w1 w2 w3 w4 w7 w8 w9 w10".to_string()))
    );

    let mut t = StreamTranscriber::new(small());
    assert_eq!(t.push_audio_with(&[5, 6], model), Ok(None));
    assert_eq!(t.finalize_with(model), Err("cannot hear 6".to_string()));
    assert_eq!(t.finalize_with(model), Ok(String::new()));
}

#[test]
fn too_little_rest_is_not_transcribed() {
    let mut t = StreamTranscriber::new(small());
    let model = |audio: Vec<i32>| name_unless(1, &audio);
    assert_eq!(t.push_audio_with(&[1], model), Ok(None));
    assert_eq!(t.finalize_with(model), Ok(String::new()));
}

#[test]
fn model_run_agrees_with_steps() {
    let audio: Vec<i32> = (0..23).collect();
    let model = |audio: Vec<i32>| name_unless(-1, &audio);
    for size in 1..=audio.len() {
        let mut stepped = StreamTranscriber::new(small());
        let mut run = StreamTranscriber::new(small());
        for part in audio.chunks(size) {
            assert_eq!(run.push_audio_with(part, model), Ok(drive(&mut stepped, part)));
        }
        assert_eq!(run.finalize_with(model), Ok(finish(&mut stepped)));
    }
}

#[test]
fn every_window_is_transcribed_once() {
    let audio: Vec<i32> = (0..20).collect();
    let mut t = StreamTranscriber::new(small());
    let heard = std::cell::RefCell::new(Vec::new());
    let r = t.push_audio_with(&audio, |chunk: Vec<i32>| {
        heard.borrow_mut().push(chunk);
        Ok::<String, String>(String::new())
    });
    assert_eq!(r, Ok(Some(String::new())));
    let windows: Vec<Vec<i32>> = (0..6).map(|k| audio[3 * k..3 * k + 4].to_vec()).collect();
    assert_eq!(heard.into_inner(), windows);
}

#[test]
fn transcription_joins_the_new_parts() {
    // The new parts are "a b", none, "c", none, and "a".
    let texts = ["a b", "", "c", "c", "c a"];
    let mut t = StreamTranscriber::new(small());
    let turn = std::cell::Cell::new(0);
    let model = |_: Vec<i32>| {
        turn.set(turn.get() + 1);
        Ok::<String, String>(texts[turn.get() - 1].to_string())
    };
    let audio: Vec<i32> = (0..13).collect();
    assert_eq!(t.push_audio_with(&audio, model), Ok(Some("a b c".to_string())));
    assert_eq!(t.push_audio_with(&[13], model), Ok(None));
    assert_eq!(t.finalize_with(model), Ok("a b c a".to_string()));
}

#[test]
fn run_needs_chunks_that_advance() {
    let cfg = StreamConfig {
        chunk_duration_ms: 1_000,
        overlap_ms: 1_000,
        sample_rate: 4,
    };
    let mut t = StreamTranscriber::<i32>::new(cfg);
    assert!(t.can_process(4));
    assert!(t.can_process_all(3));
    assert!(!t.can_process_all(4));
    assert_eq!(t.push_audio_with(&[1, 2, 3], |_: Vec<i32>| Err::<String, String>(String::new())), Ok(None));
    assert!(!t.can_process_all(1));
    assert!(StreamTranscriber::<i32>::new(small()).can_process_all(1_000));
}
