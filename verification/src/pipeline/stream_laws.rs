//! Laws of streaming transcription.

use vstd::prelude::*;

use crate::pipeline::stream;
use crate::pipeline::stream::{StreamConfig, StreamState};
use crate::pipeline::text;
use crate::utils::audio;
use crate::utils::pcm;

verus! {

// ---------------------------------------------------------------------------
// Running a stream with a model
// ---------------------------------------------------------------------------

/// A model that never fails.
pub open spec fn total<S>(model: spec_fn(Seq<S>) -> Seq<char>) -> spec_fn(Seq<S>) -> Option<
    Seq<char>,
> {
    |audio: Seq<S>| Some(model(audio))
}

/// The state after all chunks for which there is audio have been transcribed by
/// `model`: what `StreamTranscriber::push_audio_with` leaves.
pub open spec fn drained<S>(
    state: StreamState<S>,
    model: spec_fn(Seq<S>) -> Seq<char>,
) -> StreamState<S> {
    state.processed(total(model)).0
}

/// The state after `pushes` have been pushed one after the other, and all chunks
/// transcribed after each push.
pub open spec fn streamed<S>(
    state: StreamState<S>,
    pushes: Seq<Seq<S>>,
    model: spec_fn(Seq<S>) -> Seq<char>,
) -> StreamState<S>
    decreases pushes.len(),
{
    if pushes.len() == 0 {
        state
    } else {
        drained(streamed(state, pushes.drop_last(), model).pushed(pushes.last()), model)
    }
}

/// The complete transcription after the end of a stream: what
/// `StreamTranscriber::finalize_with` returns.
pub open spec fn completed<S>(
    state: StreamState<S>,
    model: spec_fn(Seq<S>) -> Seq<char>,
) -> Seq<char> {
    state.completed(total(model)).0.text
}

// ---------------------------------------------------------------------------
// Chunks
// ---------------------------------------------------------------------------

/// Consecutive chunks overlap by the configured overlap: the last samples of a
/// chunk are the first of the next, and no sample between them is skipped.
pub proof fn consecutive_chunks_overlap<S>(state: StreamState<S>)
    requires
        state.wf(),
        state.config.is_valid(),
        state.has_chunk(),
        state.advanced().has_chunk(),
    ensures
        state.chunk().skip(state.config.stride()) == state.advanced().chunk().take(
            state.config.overlap(),
        ),
        state.advanced().position + state.config.overlap() == state.position
            + state.config.chunk(),
{
    let c = state.config;
    assert(state.chunk().skip(c.stride()) == state.advanced().chunk().take(c.overlap()));
}

/// A model that never fails leaves less than a chunk, and the audio and the
/// configuration as they were.
pub proof fn drained_leaves_less_than_a_chunk<S>(
    state: StreamState<S>,
    model: spec_fn(Seq<S>) -> Seq<char>,
)
    requires
        state.wf(),
        state.config.advances(),
    ensures
        drained(state, model).wf(),
        drained(state, model).audio == state.audio,
        drained(state, model).config == state.config,
        drained(state, model).finalized == state.finalized,
        !drained(state, model).has_chunk(),
        !state.processed(total(model)).1,
    decreases state.audio.len() - state.position,
{
    if state.has_chunk() {
        drained_leaves_less_than_a_chunk(
            state.step().0.absorbed(model(state.chunk())),
            model,
        );
    }
}

/// The number of chunks in `len` samples.
pub open spec fn chunk_count(config: StreamConfig, len: int) -> int {
    if len < config.chunk() {
        0
    } else {
        (len - config.chunk()) / config.stride() + 1
    }
}

proof fn lemma_drained_position<S>(
    state: StreamState<S>,
    model: spec_fn(Seq<S>) -> Seq<char>,
)
    requires
        state.wf(),
        state.config.advances(),
    ensures
        drained(state, model).position == state.position + chunk_count(
            state.config,
            state.audio.len() - state.position,
        ) * state.config.stride(),
    decreases state.audio.len() - state.position,
{
    let stride = state.config.stride();
    let len = state.audio.len() - state.position;
    if state.has_chunk() {
        lemma_drained_position(state.step().0.absorbed(model(state.chunk())), model);
        let n = chunk_count(state.config, len);
        let m = chunk_count(state.config, len - stride);
        let x = len - state.config.chunk();
        assert(n == m + 1) by {
            if x < stride {
                vstd::arithmetic::div_mod::lemma_basic_div(x, stride);
            } else {
                vstd::arithmetic::div_mod::lemma_div_minus_one(x, stride);
            }
        }
        assert(n * stride == m * stride + stride) by (nonlinear_arith)
            requires
                n == m + 1,
        ;
    } else {
        assert(0 * stride == 0);
    }
}

/// The chunks of a stream start at the multiples of the stride: after `n` chunks,
/// the next starts at sample `n * stride`.
pub proof fn chunks_start_at_multiples_of_the_stride<S>(
    config: StreamConfig,
    audio: Seq<S>,
    model: spec_fn(Seq<S>) -> Seq<char>,
)
    requires
        config.advances(),
    ensures
        drained(stream::fresh::<S>(config).pushed(audio), model).position == chunk_count(
            config,
            audio.len() as int,
        ) * config.stride(),
{
    let start = stream::fresh::<S>(config).pushed(audio);
    assert(start.audio == audio);
    lemma_drained_position(start, model);
}

pub(crate) proof fn lemma_after<S>(state: StreamState<S>, texts: Seq<Seq<char>>)
    ensures
        state.after(texts).config == state.config,
        state.after(texts).audio == state.audio,
        state.after(texts).finalized == state.finalized,
        state.after(texts).position == state.position + texts.len() * state.config.stride(),
        state.after(texts).last_text == if texts.len() == 0 {
            state.last_text
        } else {
            texts.last()
        },
    decreases texts.len(),
{
    let n = texts.len();
    let stride = state.config.stride();
    if n > 0 {
        lemma_after(state, texts.drop_last());
        assert(n * stride == (n - 1) * stride + stride) by (nonlinear_arith);
    } else {
        assert(0 * stride == 0);
    }
}

/// Chunk `k` of a stream of `audio`.
pub open spec fn window<S>(config: StreamConfig, audio: Seq<S>, k: int) -> Seq<S> {
    audio.subrange(k * config.stride(), k * config.stride() + config.chunk())
}

/// The chunks of a stream of `audio`.
pub open spec fn windows<S>(config: StreamConfig, audio: Seq<S>) -> Seq<Seq<S>> {
    Seq::new(
        chunk_count(config, audio.len() as int) as nat,
        |k: int| window(config, audio, k),
    )
}

/// There is a chunk `k` for exactly the `k` for which it fits in the audio.
pub proof fn windows_are_those_that_fit(config: StreamConfig, len: int, k: int)
    requires
        config.advances(),
        len >= 0,
        k >= 0,
    ensures
        chunk_count(config, len) >= 0,
        k < chunk_count(config, len) <==> k * config.stride() + config.chunk() <= len,
{
    let d = config.stride();
    let x = len - config.chunk();
    assert(k * d >= 0) by (nonlinear_arith)
        requires
            k >= 0,
            d > 0,
    ;
    if x >= 0 {
        let q = x / d;
        vstd::arithmetic::div_mod::lemma_fundamental_div_mod(x, d);
        vstd::arithmetic::div_mod::lemma_div_pos_is_pos(x, d);
        assert(x == d * q + x % d);
        if k <= q {
            assert(k * d <= d * q) by (nonlinear_arith)
                requires
                    k <= q,
                    d > 0,
            ;
        } else {
            assert(k * d >= d * q + d) by (nonlinear_arith)
                requires
                    k >= q + 1,
                    d > 0,
            ;
        }
    }
}

/// Whatever the texts of the first `k` chunks of a stream are, there is a next
/// chunk exactly if chunk `k` fits in the audio, and then it is chunk `k`.
pub proof fn next_chunk_is_the_next_window<S>(
    config: StreamConfig,
    audio: Seq<S>,
    texts: Seq<Seq<char>>,
)
    requires
        config.advances(),
    ensures
        ({
            let k = texts.len() as int;
            let state = stream::fresh::<S>(config).pushed(audio).after(texts);
            &&& state.has_chunk() <==> k < chunk_count(config, audio.len() as int)
            &&& state.has_chunk() <==> k * config.stride() + config.chunk() <= audio.len()
            &&& state.has_chunk() ==> state.chunk() == window(config, audio, k)
        }),
{
    let start = stream::fresh::<S>(config).pushed(audio);
    assert(start.audio == audio);
    lemma_after(start, texts);
    windows_are_those_that_fit(config, audio.len() as int, texts.len() as int);
}

proof fn lemma_drained_after<S>(
    config: StreamConfig,
    audio: Seq<S>,
    model: spec_fn(Seq<S>) -> Seq<char>,
    k: int,
)
    requires
        config.advances(),
        0 <= k <= windows(config, audio).len(),
    ensures
        ({
            let start = stream::fresh::<S>(config).pushed(audio);
            let texts = windows(config, audio).map_values(model).take(k);
            &&& drained(start, model) == drained(start.after(texts), model)
            &&& start.after(texts).wf()
        }),
    decreases k,
{
    let start = stream::fresh::<S>(config).pushed(audio);
    assert(start.audio == audio);
    let all = windows(config, audio).map_values(model);
    if k == 0 {
        assert(all.take(0) == Seq::<Seq<char>>::empty());
    } else {
        let before = all.take(k - 1);
        lemma_drained_after(config, audio, model, k - 1);
        windows_are_those_that_fit(config, audio.len() as int, k - 1);
        next_chunk_is_the_next_window(config, audio, before);
        assert(all.take(k).drop_last() == before);
        assert(all.take(k).last() == model(window(config, audio, k - 1)));
        lemma_after(start, before);
    }
}

/// A whole run hands out the chunks of the stream, one after the other, and
/// nothing else.
pub proof fn run_transcribes_every_window<S>(
    config: StreamConfig,
    audio: Seq<S>,
    model: spec_fn(Seq<S>) -> Seq<char>,
)
    requires
        config.advances(),
    ensures
        drained(stream::fresh::<S>(config).pushed(audio), model) == stream::fresh::<S>(
            config,
        ).pushed(audio).after(windows(config, audio).map_values(model)),
{
    let n = windows(config, audio).len() as int;
    let all = windows(config, audio).map_values(model);
    windows_are_those_that_fit(config, audio.len() as int, 0);
    lemma_drained_after(config, audio, model, n);
    assert(all.take(n) == all);
    next_chunk_is_the_next_window(config, audio, all);
}

/// No sample is lost or doubled: the parts of the chunks that do not overlap the
/// next one, followed by the rest, are the audio.
pub proof fn chunks_and_rest_are_the_audio<S>(config: StreamConfig, audio: Seq<S>)
    requires
        config.advances(),
    ensures
        windows(config, audio).map_values(|w: Seq<S>| w.take(config.stride())).flatten()
            + audio.skip(windows(config, audio).len() * config.stride()) == audio,
{
    let n = windows(config, audio).len() as int;
    let f = |w: Seq<S>| w.take(config.stride());
    windows_are_those_that_fit(config, audio.len() as int, 0);
    lemma_heads_of_windows(config, audio, n);
    assert(windows(config, audio).map_values(f).take(n) == windows(config, audio).map_values(f));
    assert(audio.take(n * config.stride()) + audio.skip(n * config.stride()) == audio);
}

proof fn lemma_heads_of_windows<S>(config: StreamConfig, audio: Seq<S>, k: int)
    requires
        config.advances(),
        0 <= k <= windows(config, audio).len(),
    ensures
        0 <= k * config.stride() <= audio.len(),
        windows(config, audio).map_values(|w: Seq<S>| w.take(config.stride())).take(k).flatten()
            == audio.take(k * config.stride()),
    decreases k,
{
    let d = config.stride();
    let heads = windows(config, audio).map_values(|w: Seq<S>| w.take(config.stride()));
    if k == 0 {
        assert(0 * d == 0);
        assert(heads.take(0) == Seq::<Seq<S>>::empty());
        assert(audio.take(0) == Seq::<S>::empty());
    } else {
        lemma_heads_of_windows(config, audio, k - 1);
        windows_are_those_that_fit(config, audio.len() as int, k - 1);
        assert(k * d == (k - 1) * d + d) by (nonlinear_arith);
        assert(heads.take(k) == heads.take(k - 1).push(heads[k - 1]));
        heads.take(k - 1).lemma_flatten_push(heads[k - 1]);
        assert(heads[k - 1] == audio.subrange((k - 1) * d, k * d));
        assert(audio.take((k - 1) * d) + audio.subrange((k - 1) * d, k * d) == audio.take(k * d));
    }
}

// ---------------------------------------------------------------------------
// How the audio arrives does not matter
// ---------------------------------------------------------------------------

proof fn lemma_drain_then_push<S>(
    state: StreamState<S>,
    more: Seq<S>,
    model: spec_fn(Seq<S>) -> Seq<char>,
)
    requires
        state.wf(),
        state.config.advances(),
    ensures
        drained(drained(state, model).pushed(more), model) == drained(state.pushed(more), model),
    decreases state.audio.len() - state.position,
{
    if state.has_chunk() {
        let next = state.step().0.absorbed(model(state.chunk()));
        lemma_drain_then_push(next, more, model);
        let long = state.pushed(more);
        assert(long.chunk() == state.chunk());
        assert(long.step().0.absorbed(model(long.chunk())) == next.pushed(more));
    }
}

/// Audio that is pushed in two parts gives the same transcription as audio that
/// is pushed at once.
pub proof fn split_push_is_one_push<S>(
    state: StreamState<S>,
    a: Seq<S>,
    b: Seq<S>,
    model: spec_fn(Seq<S>) -> Seq<char>,
)
    requires
        state.wf(),
        state.config.advances(),
    ensures
        drained(drained(state.pushed(a), model).pushed(b), model) == drained(
            state.pushed(a + b),
            model,
        ),
{
    lemma_drain_then_push(state.pushed(a), b, model);
    assert(state.pushed(a).pushed(b).audio == state.pushed(a + b).audio);
}

/// However a stream is cut into pushes, its state is that after one push of all
/// its audio.
pub proof fn stream_depends_on_audio_alone<S>(
    config: StreamConfig,
    pushes: Seq<Seq<S>>,
    model: spec_fn(Seq<S>) -> Seq<char>,
)
    requires
        config.advances(),
    ensures
        streamed(stream::fresh::<S>(config), pushes, model) == drained(
            stream::fresh::<S>(config).pushed(pushes.flatten()),
            model,
        ),
    decreases pushes.len(),
{
    let start = stream::fresh::<S>(config);
    if pushes.len() == 0 {
        assert(pushes.flatten() == Seq::<S>::empty());
        assert(start.pushed(pushes.flatten()).audio == start.audio);
    } else {
        let init = pushes.drop_last();
        assert(init.push(pushes.last()) == pushes);
        init.lemma_flatten_push(pushes.last());
        stream_depends_on_audio_alone(config, init, model);
        split_push_is_one_push(start, init.flatten(), pushes.last(), model);
    }
}

/// Two ways to cut the same audio into pushes give the same complete
/// transcription.
pub proof fn transcription_depends_on_audio_alone<S>(
    config: StreamConfig,
    pushes: Seq<Seq<S>>,
    other: Seq<Seq<S>>,
    model: spec_fn(Seq<S>) -> Seq<char>,
)
    requires
        config.advances(),
        pushes.flatten() == other.flatten(),
    ensures
        completed(streamed(stream::fresh::<S>(config), pushes, model), model) == completed(
            streamed(stream::fresh::<S>(config), other, model),
            model,
        ),
{
    stream_depends_on_audio_alone(config, pushes, model);
    stream_depends_on_audio_alone(config, other, model);
}

/// Streaming a WAV file batch by batch gives the transcription of its loaded
/// samples, pushed at once, up to an incomplete last frame. (A frame must fit in
/// a batch.)
pub proof fn wav_stream_transcribes_the_file(
    config: StreamConfig,
    data: Seq<u8>,
    model: spec_fn(Seq<i32>) -> Seq<char>,
)
    requires
        config.advances(),
        data.len() <= usize::MAX,
        audio::wav_audio(data) matches Ok(audio) && 0 < pcm::frame_bytes(audio.channels as int)
            <= pcm::BATCH_BYTES,
    ensures
        audio::wav_audio(data) matches Ok(audio) && audio::wav_batches(data) matches Ok(stream)
            && audio::wav_header(data) matches Ok(info) && streamed(
            stream::fresh::<i32>(config),
            stream.batches,
            model,
        ) == drained(
            stream::fresh::<i32>(config).pushed(
                audio.sums.take(info.data_len as int / pcm::frame_bytes(audio.channels as int)),
            ),
            model,
        ),
{
    audio::streaming_gives_the_loaded_samples(data);
    stream_depends_on_audio_alone(config, audio::wav_batches(data)->Ok_0.batches, model);
}

// ---------------------------------------------------------------------------
// The transcription
// ---------------------------------------------------------------------------

/// Text that has been committed stays: the transcription only grows at its end.
pub proof fn transcription_only_grows<S>(state: StreamState<S>, chunk_text: Seq<char>)
    ensures
        state.text.is_prefix_of(state.absorbed(chunk_text).text),
        state.text.is_prefix_of(state.closed_with(chunk_text).text),
{
}

proof fn lemma_words_of_append(a: Seq<char>, part: Seq<char>)
    ensures
        text::words(stream::append_text(a, part)) == text::words(a) + text::words(part),
{
    if part.len() == 0 {
        assert(text::words(a) + text::words(part) == text::words(a));
    } else if a.len() == 0 {
        assert(text::words(a) + text::words(part) == text::words(part));
    } else {
        text::words_of_spaced(a, part);
    }
}

/// A chunk adds to the words of the transcription exactly its own words after
/// those with which the previous chunk ended.
pub proof fn chunk_adds_its_new_words<S>(state: StreamState<S>, chunk_text: Seq<char>)
    ensures
        ({
            let w = text::words(chunk_text);
            let n = text::longest_overlap(text::words(state.last_text), w) as int;
            &&& text::words(state.absorbed(chunk_text).text) == text::words(state.text) + w.skip(n)
            &&& text::words(state.closed_with(chunk_text).text) == text::words(state.text)
                + w.skip(n)
        }),
{
    lemma_words_of_append(state.text, text::new_part(state.last_text, chunk_text));
    text::new_part_drops_the_overlap(state.last_text, chunk_text);
}

/// What each of `texts` says beyond the one before it.
pub open spec fn new_parts(texts: Seq<Seq<char>>) -> Seq<Seq<char>> {
    Seq::new(
        texts.len(),
        |k: int|
            text::new_part(
                if k == 0 {
                    Seq::empty()
                } else {
                    texts[k - 1]
                },
                texts[k],
            ),
    )
}

/// The non-empty ones of `parts`, with one space between neighbours.
pub open spec fn assembled(parts: Seq<Seq<char>>) -> Seq<char> {
    text::join(parts.filter(|part: Seq<char>| part.len() > 0))
}

proof fn lemma_join_is_empty(ws: Seq<Seq<char>>)
    requires
        forall|i: int| 0 <= i < ws.len() ==> (#[trigger] ws[i]).len() > 0,
    ensures
        text::join(ws).len() == 0 <==> ws.len() == 0,
{
    if ws.len() > 0 {
        assert(ws[ws.len() - 1].len() > 0);
    }
}

proof fn lemma_assembled_push(parts: Seq<Seq<char>>, part: Seq<char>)
    ensures
        assembled(parts.push(part)) == stream::append_text(assembled(parts), part),
{
    let spoken = |p: Seq<char>| p.len() > 0;
    reveal(Seq::filter);
    let kept = parts.filter(spoken);
    assert(parts.push(part).drop_last() == parts);
    assert forall|i: int| 0 <= i < kept.len() implies (#[trigger] kept[i]).len() > 0 by {
        parts.lemma_filter_pred(spoken, i);
    }
    lemma_join_is_empty(kept);
    if part.len() > 0 {
        assert(parts.push(part).filter(spoken) == kept.push(part));
        assert(kept.push(part).drop_last() == kept);
        assert(kept.push(part).last() == part);
        if kept.len() == 0 {
            assert(kept.push(part)[0] == part);
        }
    } else {
        assert(parts.push(part).filter(spoken) == kept);
    }
}

/// Whatever the texts of the chunks are, the transcription is their non-empty new
/// parts, in order, joined by one space.
pub proof fn transcription_is_the_new_parts<S>(
    config: StreamConfig,
    audio: Seq<S>,
    texts: Seq<Seq<char>>,
)
    ensures
        stream::fresh::<S>(config).pushed(audio).after(texts).text == assembled(new_parts(texts)),
    decreases texts.len(),
{
    let start = stream::fresh::<S>(config).pushed(audio);
    reveal(Seq::filter);
    if texts.len() == 0 {
        assert(new_parts(texts) == Seq::<Seq<char>>::empty());
        assert(assembled(new_parts(texts)) == Seq::<char>::empty());
    } else {
        let init = texts.drop_last();
        transcription_is_the_new_parts::<S>(config, audio, init);
        lemma_after(start, init);
        let part = text::new_part(start.after(init).last_text, texts.last());
        assert(new_parts(texts) == new_parts(init).push(part));
        lemma_assembled_push(new_parts(init), part);
    }
}

/// The texts of a whole stream: those of its chunks, and that of the rest, if at
/// least half a second is left.
pub open spec fn stream_texts<S>(
    config: StreamConfig,
    audio: Seq<S>,
    model: spec_fn(Seq<S>) -> Seq<char>,
) -> Seq<Seq<char>> {
    let rest = audio.skip(chunk_count(config, audio.len() as int) * config.stride());
    let texts = windows(config, audio).map_values(model);
    if rest.len() >= config.sample_rate / 2 {
        texts.push(model(rest))
    } else {
        texts
    }
}

/// The complete transcription of a stream is the non-empty new parts of its texts,
/// in order, joined by one space.
pub proof fn whole_transcription_is_the_new_parts<S>(
    config: StreamConfig,
    audio: Seq<S>,
    model: spec_fn(Seq<S>) -> Seq<char>,
)
    requires
        config.advances(),
    ensures
        completed(drained(stream::fresh::<S>(config).pushed(audio), model), model) == assembled(
            new_parts(stream_texts(config, audio, model)),
        ),
{
    let start = stream::fresh::<S>(config).pushed(audio);
    let texts = windows(config, audio).map_values(model);
    let all = stream_texts(config, audio, model);
    run_transcribes_every_window(config, audio, model);
    transcription_is_the_new_parts::<S>(config, audio, texts);
    finalize_flushes_the_rest(config, audio, model);
    lemma_after(start, texts);
    let state = drained(start, model);
    if state.finish().1 is Some {
        let part = text::new_part(state.last_text, all.last());
        assert(new_parts(all) == new_parts(texts).push(part));
        lemma_assembled_push(new_parts(texts), part);
    }
}

/// A finalized stream stays as it is: finalizing it again transcribes nothing.
pub proof fn finalize_is_idempotent<S>(state: StreamState<S>, final_text: Seq<char>)
    ensures
        state.finish().0.finish() == (state.finish().0, None::<Seq<S>>),
        state.finish().0.closed_with(final_text).finish() == (
            state.finish().0.closed_with(final_text),
            None::<Seq<S>>,
        ),
{
}

/// Less than half a second of remaining audio is not transcribed; otherwise all
/// audio that no chunk start has passed is.
pub proof fn finalize_flushes_the_rest<S>(
    config: StreamConfig,
    audio: Seq<S>,
    model: spec_fn(Seq<S>) -> Seq<char>,
)
    requires
        config.advances(),
    ensures
        ({
            let state = drained(stream::fresh::<S>(config).pushed(audio), model);
            let rest = audio.skip(chunk_count(config, audio.len() as int) * config.stride());
            &&& rest.len() < config.chunk()
            &&& state.finish().1 == if rest.len() >= config.sample_rate / 2 {
                Some(rest)
            } else {
                None
            }
        }),
{
    let start = stream::fresh::<S>(config).pushed(audio);
    assert(start.audio == audio);
    drained_leaves_less_than_a_chunk(start, model);
    chunks_start_at_multiples_of_the_stride(config, audio, model);
}

} // verus!
