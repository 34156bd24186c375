//! Chunked, stateful transcription of an audio stream.
//!
//! The transcriber decides what to transcribe and how to assemble the texts; the
//! speech model is the caller's. It can be handed in as a function
//! ([`StreamTranscriber::push_audio_with`], [`StreamTranscriber::finalize_with`]),
//! or be run between calls that return what to do next: transcribe some audio and
//! hand the text back, or take the result.

use vstd::prelude::*;
use vstd::string::StringExecFns;

use crate::pipeline::text;
use crate::pipeline::text::dedup_overlap;

verus! {

// ---------------------------------------------------------------------------
// Configuration
// ---------------------------------------------------------------------------

/// Streaming transcription configuration.
#[derive(Debug, Clone)]
pub struct StreamConfig {
    /// Duration of each processing chunk in milliseconds.
    pub chunk_duration_ms: u64,
    /// Overlap between consecutive chunks in milliseconds.
    /// A non-zero overlap reduces the chance of cutting words at boundaries.
    pub overlap_ms: u64,
    /// Target sample rate (Hz); audio is assumed to already be at this rate.
    pub sample_rate: u32,
}

impl Default for StreamConfig {
    fn default() -> (r: Self)
        ensures
            r.chunk_duration_ms == 10_000,
            r.overlap_ms == 2_000,
            r.sample_rate == 16_000,
    {
        StreamConfig { chunk_duration_ms: 10_000, overlap_ms: 2_000, sample_rate: 16_000 }
    }
}

/// The number of samples in `ms` milliseconds of audio at `sample_rate` Hz.
pub open spec fn samples_in(sample_rate: u32, ms: u64) -> usize {
    (sample_rate * ms / 1000) as usize
}

impl StreamConfig {
    /// Samples per processing chunk.
    pub open spec fn chunk(self) -> int {
        samples_in(self.sample_rate, self.chunk_duration_ms) as int
    }

    /// Samples that consecutive chunks share.
    pub open spec fn overlap(self) -> int {
        samples_in(self.sample_rate, self.overlap_ms) as int
    }

    /// Samples by which consecutive chunks advance.
    pub open spec fn stride(self) -> int {
        self.chunk() - self.overlap()
    }

    /// The length of a chunk can be computed.
    pub open spec fn has_chunk_len(self) -> bool {
        self.sample_rate * self.chunk_duration_ms <= u64::MAX
    }

    /// The length of the overlap can be computed.
    pub open spec fn has_overlap_len(self) -> bool {
        self.sample_rate * self.overlap_ms <= u64::MAX
    }

    /// Chunks can be cut: the overlap is no longer than a chunk.
    pub open spec fn is_valid(self) -> bool {
        &&& self.has_chunk_len()
        &&& self.has_overlap_len()
        &&& self.overlap() <= self.chunk()
    }

    /// Chunks can be cut, and each starts behind the one before.
    pub open spec fn advances(self) -> bool {
        self.is_valid() && self.stride() > 0
    }

    /// Number of samples per processing chunk.
    pub fn chunk_samples(&self) -> (r: usize)
        requires
            self.has_chunk_len(),
        ensures
            r == self.chunk(),
    {
        (self.sample_rate as u64 * self.chunk_duration_ms / 1000) as usize
    }

    /// Number of samples that overlap between consecutive chunks.
    pub fn overlap_samples(&self) -> (r: usize)
        requires
            self.has_overlap_len(),
        ensures
            r == self.overlap(),
    {
        (self.sample_rate as u64 * self.overlap_ms / 1000) as usize
    }

    /// Whether chunks can be cut: both lengths can be computed, and the overlap is
    /// no longer than a chunk.
    pub fn can_cut(&self) -> (r: bool)
        ensures
            r == self.is_valid(),
    {
        self.can_count(self.chunk_duration_ms) && self.can_count(self.overlap_ms)
            && self.overlap_samples() <= self.chunk_samples()
    }

    /// Whether the samples in `ms` milliseconds can be counted.
    fn can_count(&self, ms: u64) -> (r: bool)
        ensures
            r == (self.sample_rate * ms <= u64::MAX),
    {
        (self.sample_rate as u64).checked_mul(ms).is_some()
    }

    /// Stride (advance) per chunk in samples = chunk - overlap.
    pub fn stride_samples(&self) -> (r: usize)
        requires
            self.is_valid(),
        ensures
            r == self.stride(),
    {
        self.chunk_samples() - self.overlap_samples()
    }
}

// ---------------------------------------------------------------------------
// The state of a stream
// ---------------------------------------------------------------------------

/// What a transcriber holds.
pub struct StreamState<S> {
    pub config: StreamConfig,
    /// All audio of the stream so far.
    pub audio: Seq<S>,
    /// Where the next chunk starts.
    pub position: int,
    /// The text of the last chunk.
    pub last_text: Seq<char>,
    /// The transcription so far.
    pub text: Seq<char>,
    pub finalized: bool,
}

/// `part` appended to `text`, with a space between the two where neither is
/// empty.
pub open spec fn append_text(text: Seq<char>, part: Seq<char>) -> Seq<char> {
    if part.len() == 0 {
        text
    } else if text.len() == 0 {
        part
    } else {
        text.push(' ') + part
    }
}

/// The state of a new stream.
pub open spec fn fresh<S>(config: StreamConfig) -> StreamState<S> {
    StreamState {
        config,
        audio: Seq::empty(),
        position: 0,
        last_text: Seq::empty(),
        text: Seq::empty(),
        finalized: false,
    }
}

impl<S> StreamState<S> {
    /// The next chunk starts within the audio.
    pub open spec fn wf(self) -> bool {
        0 <= self.position <= self.audio.len()
    }

    /// More audio has arrived.
    pub open spec fn pushed(self, samples: Seq<S>) -> Self {
        StreamState { audio: self.audio + samples, ..self }
    }

    /// There is enough audio for a chunk.
    pub open spec fn has_chunk(self) -> bool {
        self.audio.len() - self.position >= self.config.chunk()
    }

    /// The next chunk.
    pub open spec fn chunk(self) -> Seq<S> {
        self.audio.subrange(self.position, self.position + self.config.chunk())
    }

    /// The next chunk has been taken.
    pub open spec fn advanced(self) -> Self {
        StreamState { position: self.position + self.config.stride(), ..self }
    }

    /// A chunk has been transcribed as `chunk_text`.
    pub open spec fn absorbed(self, chunk_text: Seq<char>) -> Self {
        StreamState {
            last_text: chunk_text,
            text: append_text(self.text, text::new_part(self.last_text, chunk_text)),
            ..self
        }
    }

    /// Chunk processing can go on once `more` samples have arrived: the chunk
    /// length can be computed, and if there is then a chunk, it can be cut.
    pub open spec fn can_step(self, more: int) -> bool {
        &&& self.config.has_chunk_len()
        &&& self.audio.len() + more - self.position >= self.config.chunk()
            ==> self.config.is_valid()
    }

    /// One step of chunk processing: the state after it, and the chunk to
    /// transcribe, if there is enough audio for one.
    pub open spec fn step(self) -> (Self, Option<Seq<S>>) {
        if self.has_chunk() {
            (self.advanced(), Some(self.chunk()))
        } else {
            (self, None)
        }
    }

    /// The audio from the next chunk's start on.
    pub open spec fn remaining(self) -> Seq<S> {
        self.audio.skip(self.position)
    }

    /// The end of the stream: the state after it, and the remaining audio, if it
    /// is to be transcribed. That is so when the stream was not finalized before
    /// and at least half a second is left.
    pub open spec fn finish(self) -> (Self, Option<Seq<S>>) {
        if self.finalized {
            (self, None)
        } else {
            (
                StreamState { finalized: true, ..self },
                if self.remaining().len() >= self.config.sample_rate / 2 {
                    Some(self.remaining())
                } else {
                    None
                },
            )
        }
    }

    /// All chunks can be processed once `more` samples have arrived: the chunk
    /// length can be computed, and if there is then a chunk, chunks advance.
    pub open spec fn can_run(self, more: int) -> bool {
        &&& self.config.has_chunk_len()
        &&& self.audio.len() + more - self.position >= self.config.chunk()
            ==> self.config.advances()
    }

    /// The state after chunks have been taken one by one and transcribed as `texts`.
    pub open spec fn after(self, texts: Seq<Seq<char>>) -> Self
        decreases texts.len(),
    {
        if texts.len() == 0 {
            self
        } else {
            self.after(texts.drop_last()).advanced().absorbed(texts.last())
        }
    }

    /// The state after all chunks for which there is audio have been handed to
    /// `model`, up to the first that it fails on, and whether it failed on one.
    pub open spec fn processed(self, model: spec_fn(Seq<S>) -> Option<Seq<char>>) -> (Self, bool)
        decreases self.audio.len() - self.position,
    {
        if self.config.advances() && self.wf() && self.has_chunk() {
            match model(self.chunk()) {
                Some(chunk_text) => self.advanced().absorbed(chunk_text).processed(model),
                None => (self.advanced(), true),
            }
        } else {
            (self, false)
        }
    }

    /// The state after the end of the stream, with the remaining audio handed to
    /// `model` if it is to be transcribed, and whether the model failed on it.
    pub open spec fn completed(self, model: spec_fn(Seq<S>) -> Option<Seq<char>>) -> (Self, bool) {
        match self.finish().1 {
            Some(rest) => match model(rest) {
                Some(final_text) => (self.finish().0.closed_with(final_text), false),
                None => (self.finish().0, true),
            },
            None => (self.finish().0, false),
        }
    }

    /// The remaining audio has been transcribed as `final_text`.
    pub open spec fn closed_with(self, final_text: Seq<char>) -> Self {
        StreamState {
            text: append_text(self.text, text::new_part(self.last_text, final_text)),
            ..self
        }
    }
}

/// `transcribe` can be called on any audio.
pub open spec fn accepts_all<S, F: Fn(Vec<S>) -> Result<String, E>, E>(transcribe: F) -> bool {
    forall|audio: Vec<S>| call_requires(transcribe, (audio,))
}

/// `transcribe` computes `model`: it returns the text that the model gives, and
/// fails where the model gives none.
pub open spec fn computes<S, F: Fn(Vec<S>) -> Result<String, E>, E>(
    transcribe: F,
    model: spec_fn(Seq<S>) -> Option<Seq<char>>,
) -> bool {
    forall|audio: Vec<S>, reply: Result<String, E>| #[trigger]
        call_ensures(transcribe, (audio,), reply) ==> model(audio@) == match reply {
            Ok(t) => Some(t@),
            Err(_) => None,
        }
}

/// `transcribe`, called on `audio`, can return the text `reply`.
pub open spec fn says<S, F: Fn(Vec<S>) -> Result<String, E>, E>(
    transcribe: F,
    audio: Seq<S>,
    reply: Seq<char>,
) -> bool {
    exists|a: Vec<S>, t: String|
        a@ == audio && t@ == reply && #[trigger] call_ensures(transcribe, (a,), Ok::<String, E>(t))
}

/// `transcribe`, called on `audio`, can fail with `error`.
pub open spec fn fails<S, F: Fn(Vec<S>) -> Result<String, E>, E>(
    transcribe: F,
    audio: Seq<S>,
    error: E,
) -> bool {
    exists|a: Vec<S>|
        a@ == audio && #[trigger] call_ensures(transcribe, (a,), Err::<String, E>(error))
}

/// `texts` are texts that `transcribe` returns for the first chunks from `start`
/// on, in order.
pub open spec fn is_run<S, F: Fn(Vec<S>) -> Result<String, E>, E>(
    transcribe: F,
    start: StreamState<S>,
    texts: Seq<Seq<char>>,
) -> bool {
    forall|k: int|
        0 <= k < texts.len() ==> {
            &&& (#[trigger] start.after(texts.take(k))).has_chunk()
            &&& says::<S, F, E>(transcribe, start.after(texts.take(k)).chunk(), texts[k])
        }
}

/// How processing all chunks from `start` on can end: with no chunk left, or with
/// an error of the model on the chunk that was taken last.
pub open spec fn ends_with<S, F: Fn(Vec<S>) -> Result<String, E>, E>(
    transcribe: F,
    start: StreamState<S>,
    texts: Seq<Seq<char>>,
    end: StreamState<S>,
    outcome: Result<Option<String>, E>,
) -> bool {
    let last = start.after(texts);
    &&& is_run::<S, F, E>(transcribe, start, texts)
    &&& match outcome {
        Ok(interim) => {
            &&& !last.has_chunk()
            &&& end == last
            &&& match interim {
                Some(t) => texts.len() > 0 && t@ == end.text,
                None => texts.len() == 0,
            }
        },
        Err(e) => {
            &&& last.has_chunk()
            &&& end == last.advanced()
            &&& fails::<S, F, E>(transcribe, last.chunk(), e)
        },
    }
}

// ---------------------------------------------------------------------------
// StreamTranscriber
// ---------------------------------------------------------------------------

/// What to do after audio or a chunk's text was handed in.
#[derive(Debug)]
pub enum Step<S> {
    /// Transcribe this chunk and hand the text to
    /// [`accept_chunk_text`](StreamTranscriber::accept_chunk_text).
    Transcribe(Vec<S>),
    /// More audio is needed. Holds the interim transcription if a chunk has been
    /// transcribed since audio was pushed.
    Done(Option<String>),
}

/// What to do after the end of the stream was announced.
#[derive(Debug)]
pub enum FinalStep<S> {
    /// Transcribe this audio and hand the text to
    /// [`accept_final_text`](StreamTranscriber::accept_final_text).
    Transcribe(Vec<S>),
    /// The complete transcription.
    Done(String),
}

/// A stateful streaming transcriber that processes audio chunk-by-chunk.
///
/// Audio is accumulated via [`push_audio`](Self::push_audio). When the
/// internal buffer has enough samples for one processing chunk, the chunk is
/// handed out for transcription. Consecutive chunks overlap by the configured
/// overlap duration, and the transcriber deduplicates repeated text in the
/// overlap region so that output reads progressively rather than repeating.
///
/// Call [`finalize`](Self::finalize) when no more audio will arrive to flush
/// any remaining samples.
///
/// Where the transcription of a chunk fails, nothing is handed back: the window
/// has moved past the chunk, and the next push goes on behind it.
pub struct StreamTranscriber<S> {
    config: StreamConfig,
    buffer: Vec<S>,
    /// Number of samples from the start of `buffer` that have been processed
    /// and are part of a committed (non-overlapping) region.
    processed_up_to: usize,
    /// Full text of the last transcribed chunk, used for overlap dedup.
    last_chunk_text: String,
    /// Accumulated final transcription (committed, deduplicated text).
    transcription: String,
    finalized: bool,
}

impl<S> View for StreamTranscriber<S> {
    type V = StreamState<S>;

    closed spec fn view(&self) -> StreamState<S> {
        StreamState {
            config: self.config,
            audio: self.buffer@,
            position: self.processed_up_to as int,
            last_text: self.last_chunk_text@,
            text: self.transcription@,
            finalized: self.finalized,
        }
    }
}

/// A copy of `source[start..end]`.
fn copy_range<S: Copy>(source: &Vec<S>, start: usize, end: usize) -> (r: Vec<S>)
    requires
        start <= end <= source@.len(),
    ensures
        r@ == source@.subrange(start as int, end as int),
{
    let mut out: Vec<S> = Vec::new();
    let mut i: usize = start;
    while i < end
        invariant
            start <= i <= end <= source@.len(),
            out@ == source@.subrange(start as int, i as int),
        decreases end - i,
    {
        out.push(source[i]);
        i = i + 1;
    }
    out
}

impl<S: Copy> StreamTranscriber<S> {
    /// Create a new streaming transcriber with the given chunk size, overlap and
    /// sample rate.
    pub fn new(config: StreamConfig) -> (r: Self)
        ensures
            r@ == fresh::<S>(config),
            r@.wf(),
    {
        StreamTranscriber {
            config,
            buffer: Vec::new(),
            processed_up_to: 0,
            last_chunk_text: String::new(),
            transcription: String::new(),
            finalized: false,
        }
    }

    /// Whether chunk processing can go on once `more` samples have arrived. Where
    /// it cannot, the configuration holds lengths that cannot be computed, or an
    /// overlap longer than a chunk.
    pub fn can_process(&self, more: usize) -> (r: bool)
        requires
            self@.wf(),
        ensures
            r == self@.can_step(more as int),
    {
        if !self.config.can_count(self.config.chunk_duration_ms) {
            return false;
        }
        let available: usize = self.buffer.len() - self.processed_up_to;
        let chunk: usize = self.config.chunk_samples();
        if available < chunk && chunk - available > more {
            return true;
        }
        self.config.can_cut()
    }

    /// Push a segment of audio samples (mono, at the configured sample rate) into
    /// the transcriber's buffer, and take the first chunk if enough audio has
    /// accumulated for one.
    pub fn push_audio(&mut self, samples: &[S]) -> (r: Step<S>)
        requires
            old(self)@.wf(),
            old(self)@.can_step(samples@.len() as int),
        ensures
            final(self)@.wf(),
            final(self)@ == old(self)@.pushed(samples@).step().0,
            match old(self)@.pushed(samples@).step().1 {
                Some(chunk) => r matches Step::Transcribe(audio) && audio@ == chunk,
                None => r == Step::<S>::Done(None),
            },
    {
        let mut i: usize = 0;
        let ghost before = self@;
        assert(before.pushed(samples@.take(0)).audio == before.audio);
        while i < samples.len()
            invariant
                i <= samples@.len(),
                self@ == before.pushed(samples@.take(i as int)),
            decreases samples@.len() - i,
        {
            self.buffer.push(samples[i]);
            i = i + 1;
            assert(self@.audio == before.pushed(samples@.take(i as int)).audio);
        }
        assert(samples@.take(i as int) == samples@);
        match self.next_chunk() {
            Some(chunk) => Step::Transcribe(chunk),
            None => Step::Done(None),
        }
    }

    /// Take the next chunk if there is enough audio for one.
    fn next_chunk(&mut self) -> (r: Option<Vec<S>>)
        requires
            old(self)@.wf(),
            old(self)@.can_step(0),
        ensures
            final(self)@.wf(),
            final(self)@ == old(self)@.step().0,
            match old(self)@.step().1 {
                Some(chunk) => r matches Some(audio) && audio@ == chunk,
                None => r is None,
            },
    {
        let available: usize = self.buffer.len() - self.processed_up_to;
        if available < self.config.chunk_samples() {
            return None;
        }
        let start: usize = self.processed_up_to;
        let end: usize = start + self.config.chunk_samples();
        let chunk: Vec<S> = copy_range(&self.buffer, start, end);
        // Advance the processed window by the stride (chunk - overlap).
        self.processed_up_to = start + self.config.stride_samples();
        Some(chunk)
    }

    /// Hand in the text of the chunk that was last handed out. Its new part joins
    /// the transcription, and the next chunk is taken if there is enough audio.
    pub fn accept_chunk_text(&mut self, chunk_text: String) -> (r: Step<S>)
        requires
            old(self)@.wf(),
            old(self)@.can_step(0),
        ensures
            final(self)@.wf(),
            final(self)@ == old(self)@.absorbed(chunk_text@).step().0,
            match old(self)@.absorbed(chunk_text@).step().1 {
                Some(chunk) => r matches Step::Transcribe(audio) && audio@ == chunk,
                None => r matches Step::Done(Some(interim)) && interim@ == final(self)@.text,
            },
    {
        // Extract the "new" portion of this chunk's transcription by
        // deduplicating against the previous chunk's overlap region.
        self.append_new_part(chunk_text.as_str());
        self.last_chunk_text = chunk_text;
        match self.next_chunk() {
            Some(chunk) => Step::Transcribe(chunk),
            None => Step::Done(Some(self.transcription.clone())),
        }
    }

    /// Whether all chunks can be processed once `more` samples have arrived. Where
    /// they cannot, the configuration holds lengths that cannot be computed, or an
    /// overlap that is not shorter than a chunk.
    pub fn can_process_all(&self, more: usize) -> (r: bool)
        requires
            self@.wf(),
        ensures
            r == self@.can_run(more as int),
    {
        if !self.config.can_count(self.config.chunk_duration_ms) {
            return false;
        }
        let available: usize = self.buffer.len() - self.processed_up_to;
        let chunk: usize = self.config.chunk_samples();
        if available < chunk && chunk - available > more {
            return true;
        }
        self.config.can_cut() && self.config.stride_samples() > 0
    }

    /// Push a segment of audio samples and process as many complete chunks as the
    /// buffer then allows, with `transcribe` as the model.
    ///
    /// Returns the newest interim transcription if there was a chunk, `None` if
    /// more audio is needed, or the first error of the model.
    pub fn push_audio_with<F: Fn(Vec<S>) -> Result<String, E>, E>(
        &mut self,
        samples: &[S],
        transcribe: F,
    ) -> (r: Result<Option<String>, E>)
        requires
            old(self)@.wf(),
            old(self)@.can_run(samples@.len() as int),
            accepts_all::<S, F, E>(transcribe),
        ensures
            final(self)@.wf(),
            exists|texts: Seq<Seq<char>>| #[trigger]
                ends_with::<S, F, E>(
                    transcribe,
                    old(self)@.pushed(samples@),
                    texts,
                    final(self)@,
                    r,
                ),
            forall|model: spec_fn(Seq<S>) -> Option<Seq<char>>| #[trigger]
                computes::<S, F, E>(transcribe, model) ==> {
                    &&& final(self)@ == old(self)@.pushed(samples@).processed(model).0
                    &&& r is Err == old(self)@.pushed(samples@).processed(model).1
                },
    {
        let ghost start = self@.pushed(samples@);
        let mut next: Step<S> = self.push_audio(samples);
        // The texts so far, and the state before the chunk that was last taken.
        let ghost mut texts = Seq::<Seq<char>>::empty();
        let ghost mut at = start;
        loop
            invariant
                accepts_all::<S, F, E>(transcribe),
                start == old(self)@.pushed(samples@),
                start.config.has_chunk_len(),
                start.has_chunk() ==> start.config.advances(),
                at == start.after(texts),
                is_run::<S, F, E>(transcribe, start, texts),
                at.wf(),
                at.config == start.config,
                at.audio == start.audio,
                at.has_chunk() ==> start.has_chunk(),
                self@.wf(),
                match next {
                    Step::Transcribe(chunk) => at.has_chunk() && chunk@ == at.chunk() && self@
                        == at.advanced(),
                    Step::Done(interim) => !at.has_chunk() && self@ == at && match interim {
                        Some(t) => texts.len() > 0 && t@ == self@.text,
                        None => texts.len() == 0,
                    },
                },
                forall|model: spec_fn(Seq<S>) -> Option<Seq<char>>| #[trigger]
                    computes::<S, F, E>(transcribe, model) ==> start.processed(model)
                        == at.processed(model),
            decreases at.audio.len() - at.position,
        {
            match next {
                Step::Done(interim) => {
                    assert(ends_with::<S, F, E>(
                        transcribe,
                        start,
                        texts,
                        self@,
                        Ok::<Option<String>, E>(interim),
                    ));
                    return Ok(interim);
                },
                Step::Transcribe(chunk) => match transcribe(chunk) {
                    Ok(chunk_text) => {
                        let ghost t = chunk_text@;
                        assert(says::<S, F, E>(transcribe, at.chunk(), t));
                        next = self.accept_chunk_text(chunk_text);
                        proof {
                            let longer = texts.push(t);
                            assert(longer.drop_last() == texts);
                            assert forall|k: int| 0 <= k < longer.len() implies {
                                &&& (#[trigger] start.after(longer.take(k))).has_chunk()
                                &&& says::<S, F, E>(
                                    transcribe,
                                    start.after(longer.take(k)).chunk(),
                                    longer[k],
                                )
                            } by {
                                assert(longer.take(k) == texts.take(k));
                                if k == texts.len() {
                                    assert(texts.take(k) == texts);
                                }
                            }
                            texts = longer;
                            at = at.advanced().absorbed(t);
                        }
                    },
                    Err(e) => {
                        assert(fails::<S, F, E>(transcribe, at.chunk(), e));
                        assert(ends_with::<S, F, E>(
                            transcribe,
                            start,
                            texts,
                            self@,
                            Err::<Option<String>, E>(e),
                        ));
                        return Err(e);
                    },
                },
            }
        }
    }

    /// Consume any remaining audio, with `transcribe` as the model, and return the
    /// complete transcription, or the model's error.
    ///
    /// After calling this, the transcriber is exhausted: call
    /// [`reset`](Self::reset) to reuse it.
    pub fn finalize_with<F: Fn(Vec<S>) -> Result<String, E>, E>(&mut self, transcribe: F) -> (r:
        Result<String, E>)
        requires
            old(self)@.wf(),
            accepts_all::<S, F, E>(transcribe),
        ensures
            final(self)@.wf(),
            match r {
                Ok(whole) => whole@ == final(self)@.text,
                Err(_) => final(self)@ == old(self)@.finish().0,
            },
            match old(self)@.finish().1 {
                None => r is Ok && final(self)@ == old(self)@.finish().0,
                Some(rest) => match r {
                    Ok(_) => exists|t: Seq<char>| #[trigger]
                        says::<S, F, E>(transcribe, rest, t) && final(self)@
                            == old(self)@.finish().0.closed_with(t),
                    Err(e) => fails::<S, F, E>(transcribe, rest, e),
                },
            },
            forall|model: spec_fn(Seq<S>) -> Option<Seq<char>>| #[trigger]
                computes::<S, F, E>(transcribe, model) ==> {
                    &&& final(self)@ == old(self)@.completed(model).0
                    &&& r is Err == old(self)@.completed(model).1
                },
    {
        match self.finalize() {
            FinalStep::Transcribe(rest) => match transcribe(rest) {
                Ok(final_text) => {
                    assert(says::<S, F, E>(transcribe, old(self)@.remaining(), final_text@));
                    Ok(self.accept_final_text(final_text))
                },
                Err(e) => Err(e),
            },
            FinalStep::Done(whole) => Ok(whole),
        }
    }

    /// Append what `current` says beyond the text of the last chunk.
    fn append_new_part(&mut self, current: &str)
        ensures
            final(self)@ == old(self)@.closed_with(current@),
    {
        let new_part: String = dedup_overlap(self.last_chunk_text.as_str(), current);
        if !new_part.as_str().is_empty() {
            if !self.transcription.as_str().is_empty() {
                self.transcription.push(' ');
            }
            self.transcription.append(new_part.as_str());
        }
        assert(self@.text == old(self)@.closed_with(current@).text);
    }

    /// Announce the end of the stream, and take any remaining audio that is to be
    /// transcribed.
    ///
    /// After calling this, the transcriber is exhausted: call
    /// [`reset`](Self::reset) to reuse it.
    pub fn finalize(&mut self) -> (r: FinalStep<S>)
        requires
            old(self)@.wf(),
        ensures
            final(self)@.wf(),
            final(self)@ == old(self)@.finish().0,
            match old(self)@.finish().1 {
                Some(rest) => r matches FinalStep::Transcribe(audio) && audio@ == rest,
                None => r matches FinalStep::Done(whole) && whole@ == old(self)@.text,
            },
    {
        if self.finalized {
            return FinalStep::Done(self.transcription.clone());
        }
        self.finalized = true;
        let remaining: usize = self.buffer.len() - self.processed_up_to;
        // Only process remaining audio if there's at least 0.5 seconds worth.
        let min_remaining: usize = (self.config.sample_rate as usize) / 2;
        if remaining >= min_remaining {
            let audio: Vec<S> = copy_range(&self.buffer, self.processed_up_to, self.buffer.len());
            assert(audio@ == old(self)@.remaining());
            FinalStep::Transcribe(audio)
        } else {
            FinalStep::Done(self.transcription.clone())
        }
    }

    /// Hand in the text of the remaining audio, and take the complete
    /// transcription.
    pub fn accept_final_text(&mut self, final_text: String) -> (r: String)
        ensures
            final(self)@ == old(self)@.closed_with(final_text@),
            r@ == final(self)@.text,
    {
        self.append_new_part(final_text.as_str());
        self.transcription.clone()
    }

    /// Return the current streaming configuration.
    pub fn config(&self) -> (r: &StreamConfig)
        ensures
            *r == self@.config,
    {
        &self.config
    }

    /// Return the current accumulated transcription without processing more
    /// audio.
    pub fn current_transcription(&self) -> (r: &str)
        ensures
            r@ == self@.text,
    {
        self.transcription.as_str()
    }

    /// Reset the streaming state so the transcriber can be reused for a new
    /// stream.
    pub fn reset(&mut self)
        ensures
            final(self)@ == fresh::<S>(old(self)@.config),
            final(self)@.wf(),
    {
        self.buffer.clear();
        self.processed_up_to = 0;
        self.last_chunk_text = String::new();
        self.transcription = String::new();
        self.finalized = false;
    }
}

} // verus!
