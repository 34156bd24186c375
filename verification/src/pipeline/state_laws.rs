//! Laws of the single operations of a transcriber: what each does to the audio, the
//! place of the next chunk and the transcription, and what it leaves alone.

use vstd::prelude::*;

use crate::pipeline::stream;
use crate::pipeline::stream::{StreamConfig, StreamState};
use crate::pipeline::stream_laws;
use crate::pipeline::text;

verus! {

// ---------------------------------------------------------------------------
// Configuration
// ---------------------------------------------------------------------------

/// The length of a chunk is the number of whole samples in its duration, and so is
/// that of the overlap; chunks advance by what does not overlap.
pub proof fn lengths_are_whole_samples(config: StreamConfig)
    requires
        config.sample_rate * config.chunk_duration_ms <= 1000 * usize::MAX,
        config.sample_rate * config.overlap_ms <= 1000 * usize::MAX,
    ensures
        1000 * config.chunk() <= config.sample_rate * config.chunk_duration_ms,
        config.sample_rate * config.chunk_duration_ms < 1000 * config.chunk() + 1000,
        1000 * config.overlap() <= config.sample_rate * config.overlap_ms,
        config.sample_rate * config.overlap_ms < 1000 * config.overlap() + 1000,
        config.stride() == config.chunk() - config.overlap(),
{
    let a = config.sample_rate * config.chunk_duration_ms;
    let b = config.sample_rate * config.overlap_ms;
    assert(a >= 0 && b >= 0) by (nonlinear_arith)
        requires
            a == config.sample_rate * config.chunk_duration_ms,
            b == config.sample_rate * config.overlap_ms,
    ;
}

/// Chunks can be cut exactly if both products of rate and duration fit in 64 bits
/// and the overlap is no longer than a chunk; they advance exactly if it is shorter.
/// As long as there is no full chunk, the overlap does not matter.
pub proof fn usable_configurations<S>(state: StreamState<S>, more: int)
    ensures
        ({
            let c = state.config;
            let counted = c.sample_rate * c.chunk_duration_ms <= 0xffff_ffff_ffff_ffff;
            let usable = counted && c.sample_rate * c.overlap_ms <= 0xffff_ffff_ffff_ffff
                && c.overlap() <= c.chunk();
            let full = state.audio.len() + more - state.position >= c.chunk();
            &&& c.has_chunk_len() <==> counted
            &&& c.has_overlap_len() <==> c.sample_rate * c.overlap_ms <= 0xffff_ffff_ffff_ffff
            &&& c.is_valid() <==> usable
            &&& c.advances() <==> usable && c.overlap() < c.chunk()
            &&& state.can_step(more) <==> counted && (full ==> usable)
            &&& state.can_run(more) <==> counted && (full ==> usable && c.overlap() < c.chunk())
        }),
{
}

// ---------------------------------------------------------------------------
// Single operations
// ---------------------------------------------------------------------------

/// A new stream holds no audio and no text, and its first chunk starts at the first
/// sample.
pub proof fn new_stream_is_empty<S>(config: StreamConfig)
    ensures
        ({
            let state = stream::fresh::<S>(config);
            &&& state.config == config
            &&& state.audio.len() == 0
            &&& state.position == 0
            &&& state.last_text.len() == 0
            &&& state.text.len() == 0
            &&& !state.finalized
        }),
{
}

/// Pushed audio goes behind the audio so far. If a chunk is then complete, it is
/// handed out, and the next one starts where the overlap begins; otherwise nothing
/// moves. No text changes.
pub proof fn push_hands_out_a_complete_chunk<S>(state: StreamState<S>, samples: Seq<S>)
    ensures
        ({
            let all = state.audio + samples;
            let p = state.position;
            let n = state.config.chunk();
            let (after, handed) = state.pushed(samples).step();
            &&& after.audio == all
            &&& after.config == state.config
            &&& after.last_text == state.last_text
            &&& after.text == state.text
            &&& after.finalized == state.finalized
            &&& p + n <= all.len() ==> handed == Some(all.subrange(p, p + n)) && after.position == p
                + n - state.config.overlap()
            &&& p + n > all.len() ==> handed is None && after.position == p
        }),
{
}

/// The same without new audio, once a text has been handed in.
pub proof fn step_hands_out_a_complete_chunk<S>(state: StreamState<S>)
    ensures
        ({
            let p = state.position;
            let n = state.config.chunk();
            let (after, handed) = state.step();
            &&& after.audio == state.audio
            &&& after.config == state.config
            &&& after.last_text == state.last_text
            &&& after.text == state.text
            &&& after.finalized == state.finalized
            &&& p + n <= state.audio.len() ==> handed == Some(state.audio.subrange(p, p + n))
                && after.position == p + n - state.config.overlap()
            &&& p + n > state.audio.len() ==> handed is None && after.position == p
        }),
{
}

/// A chunk's text leaves the audio alone and becomes the text that the next one is
/// compared with; the text of the rest does not.
pub proof fn texts_leave_the_audio_alone<S>(state: StreamState<S>, t: Seq<char>)
    ensures
        state.absorbed(t).config == state.config,
        state.absorbed(t).audio == state.audio,
        state.absorbed(t).position == state.position,
        state.absorbed(t).finalized == state.finalized,
        state.absorbed(t).last_text == t,
        state.closed_with(t).config == state.config,
        state.closed_with(t).audio == state.audio,
        state.closed_with(t).position == state.position,
        state.closed_with(t).finalized == state.finalized,
        state.closed_with(t).last_text == state.last_text,
        state.closed_with(t).text == state.absorbed(t).text,
{
}

/// The transcription stays and grows by words of the chunk's text. Any run of words
/// with which the previous chunk ended and this one begins is left out, however
/// long, and nothing else is: what is left out is such a run.
pub proof fn transcription_grows_by_the_new_words<S>(state: StreamState<S>, t: Seq<char>)
    ensures
        ({
            let p = text::words(state.last_text);
            let c = text::words(t);
            let before = text::words(state.text);
            let now = text::words(state.absorbed(t).text);
            let added = now.skip(before.len() as int);
            let dropped = c.len() - added.len();
            &&& now.len() >= before.len()
            &&& now.take(before.len() as int) == before
            &&& 0 <= dropped <= p.len()
            &&& added == c.skip(dropped)
            &&& p.skip(p.len() - dropped) == c.take(dropped)
            &&& forall|n: int|
                0 <= n <= p.len() && n <= c.len() && p.skip(p.len() - n) == #[trigger] c.take(n)
                    ==> n <= dropped
        }),
{
    let left = text::words(text::new_part(state.last_text, t));
    let before = text::words(state.text);
    text::no_shared_run_is_repeated(state.last_text, t);
    stream_laws::chunk_adds_its_new_words(state, t);
    text::new_part_drops_the_overlap(state.last_text, t);
    let now = text::words(state.absorbed(t).text);
    assert(now == before + left);
    assert(now.skip(before.len() as int) == left);
    assert(now.take(before.len() as int) == before);
}

/// The new part is put behind the transcription as it is, with one space between
/// the two where both have characters.
pub proof fn new_part_follows_one_space<S>(state: StreamState<S>, t: Seq<char>)
    ensures
        ({
            let part = text::new_part(state.last_text, t);
            let now = state.absorbed(t).text;
            &&& part.len() == 0 ==> now == state.text
            &&& state.text.len() == 0 ==> now == part
            &&& part.len() > 0 && state.text.len() > 0 ==> now == state.text + seq![' '] + part
        }),
{
    let part = text::new_part(state.last_text, t);
    if part.len() > 0 && state.text.len() > 0 {
        assert(state.text.push(' ') + part == state.text + seq![' '] + part);
    }
}

/// The end of a stream is announced once. What is then left is all audio from the
/// start of the next chunk on, and it is to be transcribed if it lasts at least half
/// a second.
pub proof fn end_hands_out_half_a_second<S>(state: StreamState<S>)
    requires
        state.wf(),
    ensures
        ({
            let left = state.audio.len() - state.position;
            let (after, rest) = state.finish();
            &&& after.finalized
            &&& after.config == state.config
            &&& after.audio == state.audio
            &&& after.position == state.position
            &&& after.last_text == state.last_text
            &&& after.text == state.text
            &&& rest is Some <==> !state.finalized && left >= (state.config.sample_rate as int) / 2
            &&& rest matches Some(audio) ==> audio == state.audio.subrange(
                state.position,
                state.audio.len() as int,
            )
        }),
{
}

// ---------------------------------------------------------------------------
// Runs
// ---------------------------------------------------------------------------

/// Where the chunk after `k` more chunks starts.
pub open spec fn place<S>(state: StreamState<S>, k: int) -> int {
    state.position + k * (state.config.chunk() - state.config.overlap())
}

/// The chunk after `k` more chunks.
pub open spec fn later_chunk<S>(state: StreamState<S>, k: int) -> Seq<S> {
    state.audio.subrange(place(state, k), place(state, k) + state.config.chunk())
}

/// Texts are handed in one by one, each for the chunk after the one before it.
pub proof fn texts_are_handed_in_one_by_one<S>(
    state: StreamState<S>,
    texts: Seq<Seq<char>>,
    t: Seq<char>,
)
    ensures
        state.after(Seq::empty()) == state,
        state.after(texts.push(t)).text == state.after(texts).absorbed(t).text,
        state.after(texts.push(t)).last_text == t,
        state.after(texts.push(t)).position == state.after(texts).position + state.config.chunk()
            - state.config.overlap(),
        state.after(texts).audio == state.audio,
        state.after(texts).config == state.config,
        state.after(texts).finalized == state.finalized,
        state.after(texts).position == state.position + texts.len() * state.config.stride(),
{
    assert(texts.push(t).drop_last() == texts);
    stream_laws::lemma_after(state, texts);
    stream_laws::lemma_after(state, texts.push(t));
}

/// A run hands chunk after chunk to the model, at every stride, and goes on as long
/// as there is audio for one. It stops early only at the first chunk that the model
/// fails on, and then has passed that chunk.
pub proof fn run_stops_at_the_end_or_at_a_failure<S>(
    state: StreamState<S>,
    model: spec_fn(Seq<S>) -> Option<Seq<char>>,
    texts: Seq<Seq<char>>,
)
    requires
        state.wf(),
        state.config.advances(),
        forall|k: int|
            0 <= k < texts.len() ==> {
                &&& place(state, k) + state.config.chunk() <= state.audio.len()
                &&& model(#[trigger] later_chunk(state, k)) == Some(texts[k])
            },
    ensures
        ({
            let k = texts.len() as int;
            let p = place(state, k);
            let n = state.config.chunk();
            let (end, failed) = state.processed(model);
            &&& p + n > state.audio.len() ==> !failed && end == state.after(texts)
            &&& p + n <= state.audio.len() && model(later_chunk(state, k)) is None ==> {
                &&& failed
                &&& end.position == p + n - state.config.overlap()
                &&& end.text == state.after(texts).text
                &&& end.last_text == state.after(texts).last_text
                &&& end.audio == state.audio
                &&& end.config == state.config
                &&& end.finalized == state.finalized
            }
        }),
{
    lemma_processed_after(state, model, texts);
    lemma_place(state, texts);
}

/// Without audio for a chunk, a run changes nothing, whatever the configuration.
pub proof fn run_without_a_chunk_changes_nothing<S>(
    state: StreamState<S>,
    model: spec_fn(Seq<S>) -> Option<Seq<char>>,
)
    requires
        state.position + state.config.chunk() > state.audio.len(),
    ensures
        state.processed(model) == (state, false),
{
}

proof fn lemma_place<S>(state: StreamState<S>, texts: Seq<Seq<char>>)
    ensures
        state.after(texts).position == place(state, texts.len() as int),
        state.after(texts).audio == state.audio,
        state.after(texts).config == state.config,
        state.after(texts).finalized == state.finalized,
        state.after(texts).chunk() == later_chunk(state, texts.len() as int),
{
    stream_laws::lemma_after(state, texts);
}

proof fn lemma_processed_after<S>(
    state: StreamState<S>,
    model: spec_fn(Seq<S>) -> Option<Seq<char>>,
    texts: Seq<Seq<char>>,
)
    requires
        state.wf(),
        state.config.advances(),
        forall|k: int|
            0 <= k < texts.len() ==> {
                &&& place(state, k) + state.config.chunk() <= state.audio.len()
                &&& model(#[trigger] later_chunk(state, k)) == Some(texts[k])
            },
    ensures
        state.after(texts).wf(),
        state.processed(model) == state.after(texts).processed(model),
    decreases texts.len(),
{
    if texts.len() > 0 {
        let init = texts.drop_last();
        let k = init.len() as int;
        assert forall|k: int| 0 <= k < init.len() implies {
            &&& place(state, k) + state.config.chunk() <= state.audio.len()
            &&& model(#[trigger] later_chunk(state, k)) == Some(init[k])
        } by {
            assert(model(later_chunk(state, k)) == Some(texts[k]));
            assert(init[k] == texts[k]);
        }
        lemma_processed_after(state, model, init);
        lemma_place(state, init);
        assert(model(later_chunk(state, k)) == Some(texts.last()));
    }
}

/// A run with a function as the model, whatever that function returns: it was called
/// on every chunk, at every stride, until no chunk was left or it failed; the
/// texts are what it returned, in order, and the result is what the run has
/// assembled, or the error.
pub proof fn run_calls_the_function_on_every_chunk<S, F: Fn(Vec<S>) -> Result<String, E>, E>(
    transcribe: F,
    start: StreamState<S>,
    texts: Seq<Seq<char>>,
    end: StreamState<S>,
    outcome: Result<Option<String>, E>,
)
    requires
        stream::ends_with::<S, F, E>(transcribe, start, texts, end, outcome),
    ensures
        ({
            let n = start.config.chunk();
            let last = texts.len() as int;
            &&& end.audio == start.audio
            &&& end.config == start.config
            &&& end.finalized == start.finalized
            &&& end.text == start.after(texts).text
            &&& end.last_text == start.after(texts).last_text
            &&& forall|k: int|
                0 <= k < texts.len() ==> {
                    &&& #[trigger] place(start, k) + n <= start.audio.len()
                    &&& exists|a: Vec<S>, t: String|
                        a@ == later_chunk(start, k) && t@ == texts[k] && #[trigger] call_ensures(
                            transcribe,
                            (a,),
                            Ok::<String, E>(t),
                        )
                }
            &&& match outcome {
                Ok(interim) => {
                    &&& place(start, last) + n > start.audio.len()
                    &&& end.position == place(start, last)
                    &&& match interim {
                        Some(t) => texts.len() > 0 && t@ == end.text,
                        None => texts.len() == 0,
                    }
                },
                Err(e) => {
                    &&& place(start, last) + n <= start.audio.len()
                    &&& end.position == place(start, last) + n - start.config.overlap()
                    &&& exists|a: Vec<S>|
                        a@ == later_chunk(start, last) && #[trigger] call_ensures(
                            transcribe,
                            (a,),
                            Err::<String, E>(e),
                        )
                },
            }
        }),
{
    let n = start.config.chunk();
    lemma_place(start, texts);
    assert forall|k: int| 0 <= k < texts.len() implies {
        &&& #[trigger] place(start, k) + n <= start.audio.len()
        &&& exists|a: Vec<S>, t: String|
            a@ == later_chunk(start, k) && t@ == texts[k] && #[trigger] call_ensures(
                transcribe,
                (a,),
                Ok::<String, E>(t),
            )
    } by {
        lemma_place(start, texts.take(k));
        assert(start.after(texts.take(k)).has_chunk());
    }
}

/// A function that returns the model's text where there is one, and fails where
/// there is none, computes the model; and one that takes any audio can be run.
pub proof fn faithful_function_computes_the_model<S, F: Fn(Vec<S>) -> Result<String, E>, E>(
    transcribe: F,
    model: spec_fn(Seq<S>) -> Option<Seq<char>>,
)
    ensures
        (forall|audio: Vec<S>, t: String| #[trigger]
            call_ensures(transcribe, (audio,), Ok::<String, E>(t)) ==> model(audio@) == Some(t@))
            && (forall|audio: Vec<S>, e: E| #[trigger]
            call_ensures(transcribe, (audio,), Err::<String, E>(e)) ==> model(audio@) is None)
            ==> stream::computes::<S, F, E>(transcribe, model),
        (forall|audio: Vec<S>| call_requires(transcribe, (audio,))) ==> stream::accepts_all::<
            S,
            F,
            E,
        >(transcribe),
{
    if (forall|audio: Vec<S>, t: String| #[trigger]
        call_ensures(transcribe, (audio,), Ok::<String, E>(t)) ==> model(audio@) == Some(t@)) && (
    forall|audio: Vec<S>, e: E| #[trigger]
        call_ensures(transcribe, (audio,), Err::<String, E>(e)) ==> model(audio@) is None) {
        assert forall|audio: Vec<S>, reply: Result<String, E>| #[trigger]
            call_ensures(transcribe, (audio,), reply) implies model(audio@) == match reply {
            Ok(t) => Some(t@),
            Err(_) => None,
        } by {
            match reply {
                Ok(t) => {
                    assert(call_ensures(transcribe, (audio,), Ok::<String, E>(t)));
                },
                Err(e) => {
                    assert(call_ensures(transcribe, (audio,), Err::<String, E>(e)));
                },
            }
        }
    }
}

/// The end of a stream with a model: at least half a second of rest is handed to it
/// once, and its text closes the transcription; otherwise nothing is.
pub proof fn end_transcribes_the_rest<S>(
    state: StreamState<S>,
    model: spec_fn(Seq<S>) -> Option<Seq<char>>,
)
    requires
        state.wf(),
    ensures
        ({
            let rest = state.audio.subrange(state.position, state.audio.len() as int);
            let due = !state.finalized && rest.len() >= (state.config.sample_rate as int) / 2;
            let (end, failed) = state.completed(model);
            &&& end.finalized
            &&& end.audio == state.audio
            &&& end.position == state.position
            &&& failed <==> due && model(rest) is None
            &&& due && model(rest) is Some ==> end.text == state.absorbed(model(rest)->Some_0).text
            &&& !due || failed ==> end.text == state.text
        }),
{
    let rest = state.audio.subrange(state.position, state.audio.len() as int);
    assert(rest == state.remaining());
}

} // verus!
