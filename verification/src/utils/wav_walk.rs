//! What is read from a WAV file, byte by byte. The chunks of a file are found by
//! walking it: each chunk header says where the next one lies. The laws here give
//! the result for every file, from its bytes and the places of its chunk headers.

use vstd::prelude::*;

use crate::utils::audio;
use crate::utils::audio::{MonoAudio, MonoBatches, RiffChunk, WavError, WavInfo};
use crate::utils::pcm;

verus! {

/// The number that the bytes at `p` and `p + 1` spell, the lowest first.
pub open spec fn two_bytes(data: Seq<u8>, p: int) -> int {
    data[p] + 256 * data[p + 1]
}

/// The number that the four bytes from `p` on spell, the lowest first.
pub open spec fn four_bytes(data: Seq<u8>, p: int) -> int {
    data[p] + 256 * (data[p + 1] + 256 * (data[p + 2] + 256 * data[p + 3]))
}

/// The four bytes at `p` are these.
pub open spec fn tag_is(data: Seq<u8>, p: int, a: u8, b: u8, c: u8, d: u8) -> bool {
    data[p] == a && data[p + 1] == b && data[p + 2] == c && data[p + 3] == d
}

/// The header of a `fmt ` chunk lies at `p`.
pub open spec fn is_fmt(data: Seq<u8>, p: int) -> bool {
    tag_is(data, p, 0x66, 0x6d, 0x74, 0x20)
}

/// The header of a `data` chunk lies at `p`.
pub open spec fn is_data(data: Seq<u8>, p: int) -> bool {
    tag_is(data, p, 0x64, 0x61, 0x74, 0x61)
}

/// The file has at least 44 bytes, begins with `RIFF` and has `WAVE` at byte 8.
pub open spec fn is_signed(data: Seq<u8>) -> bool {
    data.len() >= 44 && tag_is(data, 0, 0x52, 0x49, 0x46, 0x46) && tag_is(
        data,
        8,
        0x57,
        0x41,
        0x56,
        0x45,
    )
}

/// A chunk header lies at `p`, and its body ends within the file.
pub open spec fn holds_chunk(data: Seq<u8>, p: int) -> bool {
    p + 8 <= data.len() && p + 8 + four_bytes(data, p + 4) <= data.len()
}

/// `at` are the places of all chunk headers from byte 12 on, and at its end the
/// place where the walk stops because no chunk lies there. A header takes 8 bytes,
/// and a body of odd length is followed by one byte of padding.
pub open spec fn is_walk(data: Seq<u8>, at: Seq<int>) -> bool {
    &&& at.len() > 0
    &&& at[0] == 12
    &&& forall|k: int|
        0 <= k < at.len() - 1 ==> {
            let p = #[trigger] at[k];
            &&& holds_chunk(data, p)
            &&& at[k + 1] == p + 8 + four_bytes(data, p + 4) + four_bytes(data, p + 4) % 2
        }
    &&& !holds_chunk(data, at[at.len() - 1])
}

/// Chunk `f` is the last `fmt ` chunk of the walk.
pub open spec fn is_last_fmt(data: Seq<u8>, at: Seq<int>, f: int) -> bool {
    &&& 0 <= f < at.len() - 1
    &&& is_fmt(data, at[f])
    &&& forall|k: int| f < k < at.len() - 1 ==> !is_fmt(data, #[trigger] at[k])
}

/// Chunk `d` is the last `data` chunk of the walk.
pub open spec fn is_last_data(data: Seq<u8>, at: Seq<int>, d: int) -> bool {
    &&& 0 <= d < at.len() - 1
    &&& is_data(data, at[d])
    &&& forall|k: int| d < k < at.len() - 1 ==> !is_data(data, #[trigger] at[k])
}

/// Every `fmt ` chunk of the walk has at least 16 bytes.
pub open spec fn formats_are_long(data: Seq<u8>, at: Seq<int>) -> bool {
    forall|k: int|
        0 <= k < at.len() - 1 && is_fmt(data, #[trigger] at[k]) ==> four_bytes(data, at[k] + 4)
            >= 16
}

// ---------------------------------------------------------------------------
// Every file can be walked
// ---------------------------------------------------------------------------

proof fn lemma_four_bytes(data: Seq<u8>, p: int)
    ensures
        four_bytes(data, p) == pcm::le_u32(data, p),
        0 <= four_bytes(data, p) < 0x1_0000_0000,
{
}

proof fn lemma_walk_from(data: Seq<u8>, p: int) -> (at: Seq<int>)
    requires
        0 <= p,
    ensures
        at.len() > 0,
        at[0] == p,
        forall|k: int|
            0 <= k < at.len() - 1 ==> {
                let p = #[trigger] at[k];
                &&& holds_chunk(data, p)
                &&& at[k + 1] == p + 8 + four_bytes(data, p + 4) + four_bytes(data, p + 4) % 2
            },
        !holds_chunk(data, at[at.len() - 1]),
    decreases data.len() + 1 - p,
{
    lemma_four_bytes(data, p + 4);
    if holds_chunk(data, p) {
        let next = p + 8 + four_bytes(data, p + 4) + four_bytes(data, p + 4) % 2;
        let rest = lemma_walk_from(data, next);
        let at = seq![p] + rest;
        assert(at[at.len() - 1] == rest[rest.len() - 1]);
        assert forall|k: int| 0 <= k < at.len() - 1 implies {
            let p = #[trigger] at[k];
            &&& holds_chunk(data, p)
            &&& at[k + 1] == p + 8 + four_bytes(data, p + 4) + four_bytes(data, p + 4) % 2
        } by {
            assert(at[k + 1] == rest[k]);
            if k > 0 {
                assert(at[k] == rest[k - 1]);
            }
        }
        at
    } else {
        seq![p]
    }
}

/// Every file can be walked.
pub proof fn every_file_has_a_walk(data: Seq<u8>)
    ensures
        exists|at: Seq<int>| is_walk(data, at),
{
    let at = lemma_walk_from(data, 12);
    assert(is_walk(data, at));
}

// ---------------------------------------------------------------------------
// The chunks of a walk
// ---------------------------------------------------------------------------

spec fn chunk_of(data: Seq<u8>, p: int) -> RiffChunk {
    RiffChunk { id: data.subrange(p, p + 4), start: p + 8, len: four_bytes(data, p + 4) }
}

spec fn chunks_of(data: Seq<u8>, at: Seq<int>, from: int) -> Seq<RiffChunk> {
    Seq::new((at.len() - 1 - from) as nat, |k: int| chunk_of(data, at[from + k]))
}

proof fn lemma_walk_places(data: Seq<u8>, at: Seq<int>, k: int)
    requires
        is_walk(data, at),
        0 <= k < at.len(),
    ensures
        at[k] >= 12,
    decreases k,
{
    if k > 0 {
        lemma_walk_places(data, at, k - 1);
        lemma_four_bytes(data, at[k - 1] + 4);
    }
}

proof fn lemma_chunks_from(data: Seq<u8>, at: Seq<int>, k: int)
    requires
        is_walk(data, at),
        0 <= k < at.len(),
    ensures
        audio::riff_chunks(data, at[k]) == chunks_of(data, at, k),
    decreases at.len() - k,
{
    let p = at[k];
    lemma_walk_places(data, at, k);
    lemma_four_bytes(data, p + 4);
    if k < at.len() - 1 {
        assert(audio::chunk_fits(data, p));
        assert(audio::chunk_at(data, p).next() == at[k + 1]);
        lemma_chunks_from(data, at, k + 1);
        let all = chunks_of(data, at, k);
        let rest = chunks_of(data, at, k + 1);
        assert(audio::chunk_at(data, p) == chunk_of(data, p));
        assert(all == seq![chunk_of(data, p)] + rest) by {
            assert forall|i: int| 0 <= i < all.len() implies all[i] == (seq![chunk_of(data, p)]
                + rest)[i] by {
                if i > 0 {
                    assert(rest[i - 1] == chunk_of(data, at[k + 1 + (i - 1)]));
                }
            }
        }
    } else {
        assert(!audio::chunk_fits(data, p));
        assert(chunks_of(data, at, k) == Seq::<RiffChunk>::empty());
    }
}

proof fn lemma_chunks(data: Seq<u8>, at: Seq<int>)
    requires
        is_walk(data, at),
    ensures
        audio::wav_chunks(data).len() == at.len() - 1,
        forall|k: int|
            0 <= k < at.len() - 1 ==> {
                let c = #[trigger] audio::wav_chunks(data)[k];
                &&& c.start == at[k] + 8
                &&& c.len == four_bytes(data, at[k] + 4)
                &&& c.id == audio::fmt_id() <==> is_fmt(data, at[k])
                &&& c.id == audio::data_id() <==> is_data(data, at[k])
            },
{
    lemma_chunks_from(data, at, 0);
    let chunks = audio::wav_chunks(data);
    assert forall|k: int| 0 <= k < at.len() - 1 implies {
        let c = #[trigger] chunks[k];
        &&& c.start == at[k] + 8
        &&& c.len == four_bytes(data, at[k] + 4)
        &&& c.id == audio::fmt_id() <==> is_fmt(data, at[k])
        &&& c.id == audio::data_id() <==> is_data(data, at[k])
    } by {
        let p = at[k];
        lemma_walk_places(data, at, k);
        assert(holds_chunk(data, p));
        lemma_four_bytes(data, p + 4);
        assert(chunks[k] == chunk_of(data, p));
        lemma_tag(data, p, 0x66, 0x6d, 0x74, 0x20);
        lemma_tag(data, p, 0x64, 0x61, 0x74, 0x61);
    }
}

proof fn lemma_tag(data: Seq<u8>, p: int, a: u8, b: u8, c: u8, d: u8)
    requires
        0 <= p,
        p + 4 <= data.len(),
    ensures
        data.subrange(p, p + 4) == seq![a, b, c, d] <==> tag_is(data, p, a, b, c, d),
{
    let id = data.subrange(p, p + 4);
    let want = seq![a, b, c, d];
    assert(id[0] == data[p] && id[1] == data[p + 1] && id[2] == data[p + 2] && id[3] == data[p
        + 3]);
    assert(want[0] == a && want[1] == b && want[2] == c && want[3] == d);
    if tag_is(data, p, a, b, c, d) {
        assert(id == want);
    }
}

proof fn lemma_signed(data: Seq<u8>)
    ensures
        audio::is_wav(data) == is_signed(data),
{
    if data.len() >= 44 {
        lemma_tag(data, 0, 0x52, 0x49, 0x46, 0x46);
        lemma_tag(data, 8, 0x57, 0x41, 0x56, 0x45);
    }
}

proof fn lemma_last_fmt(data: Seq<u8>, at: Seq<int>, f: int)
    requires
        is_walk(data, at),
        is_last_fmt(data, at, f),
    ensures
        audio::last_chunk(audio::wav_chunks(data), audio::fmt_id()) == Some(
            audio::wav_chunks(data)[f],
        ),
{
    let chunks = audio::wav_chunks(data);
    lemma_chunks(data, at);
    audio::last_chunk_is_a_chunk(chunks, audio::fmt_id());
    assert(chunks[f].id == audio::fmt_id());
    let i = choose|i: int|
        0 <= i < chunks.len() && audio::last_chunk(chunks, audio::fmt_id()) == Some(
            #[trigger] chunks[i],
        ) && chunks[i].id == audio::fmt_id() && forall|j: int|
            i < j < chunks.len() ==> (#[trigger] chunks[j]).id != audio::fmt_id();
    assert(is_fmt(data, at[i]));
    assert(i == f);
}

proof fn lemma_last_data(data: Seq<u8>, at: Seq<int>, d: int)
    requires
        is_walk(data, at),
        is_last_data(data, at, d),
    ensures
        audio::last_chunk(audio::wav_chunks(data), audio::data_id()) == Some(
            audio::wav_chunks(data)[d],
        ),
{
    let chunks = audio::wav_chunks(data);
    lemma_chunks(data, at);
    audio::last_chunk_is_a_chunk(chunks, audio::data_id());
    assert(chunks[d].id == audio::data_id());
    let i = choose|i: int|
        0 <= i < chunks.len() && audio::last_chunk(chunks, audio::data_id()) == Some(
            #[trigger] chunks[i],
        ) && chunks[i].id == audio::data_id() && forall|j: int|
            i < j < chunks.len() ==> (#[trigger] chunks[j]).id != audio::data_id();
    assert(is_data(data, at[i]));
    assert(i == d);
}

proof fn lemma_long_formats(data: Seq<u8>, at: Seq<int>)
    requires
        is_walk(data, at),
    ensures
        audio::has_short_fmt(audio::wav_chunks(data)) == !formats_are_long(data, at),
{
    let chunks = audio::wav_chunks(data);
    lemma_chunks(data, at);
    if !formats_are_long(data, at) {
        let k = choose|k: int|
            0 <= k < at.len() - 1 && is_fmt(data, #[trigger] at[k]) && four_bytes(data, at[k] + 4)
                < 16;
        assert(audio::is_short_fmt(chunks[k]));
    }
    if audio::has_short_fmt(chunks) {
        let k = choose|k: int| 0 <= k < chunks.len() && audio::is_short_fmt(#[trigger] chunks[k]);
        assert(is_fmt(data, at[k]));
    }
}

// ---------------------------------------------------------------------------
// What is read
// ---------------------------------------------------------------------------

/// A file is no WAV file exactly if it is shorter than 44 bytes or lacks the
/// signature.
pub proof fn only_unsigned_files_are_no_wav_files(data: Seq<u8>)
    ensures
        !is_signed(data) <==> audio::wav_header(data) == Err::<WavInfo, WavError>(WavError::NotWav),
        !is_signed(data) <==> audio::wav_audio(data) == Err::<MonoAudio, WavError>(
            WavError::NotWav,
        ),
        !is_signed(data) <==> audio::wav_batches(data) == Err::<MonoBatches, WavError>(
            WavError::NotWav,
        ),
{
    lemma_signed(data);
}

/// A `fmt ` chunk of fewer than 16 bytes makes a file unreadable, whatever else it
/// holds.
pub proof fn short_format_is_refused(data: Seq<u8>, at: Seq<int>)
    requires
        is_signed(data),
        is_walk(data, at),
        !formats_are_long(data, at),
    ensures
        audio::wav_header(data) == Err::<WavInfo, WavError>(WavError::FmtTooSmall),
        audio::wav_audio(data) == Err::<MonoAudio, WavError>(WavError::FmtTooSmall),
        audio::wav_batches(data) == Err::<MonoBatches, WavError>(WavError::FmtTooSmall),
{
    lemma_signed(data);
    lemma_long_formats(data, at);
}

/// A file without a `fmt ` chunk is refused for that.
pub proof fn missing_format_is_refused(data: Seq<u8>, at: Seq<int>)
    requires
        is_signed(data),
        is_walk(data, at),
        forall|k: int| 0 <= k < at.len() - 1 ==> !is_fmt(data, #[trigger] at[k]),
    ensures
        audio::wav_header(data) == Err::<WavInfo, WavError>(WavError::MissingFmt),
        audio::wav_audio(data) == Err::<MonoAudio, WavError>(WavError::MissingFmt),
        audio::wav_batches(data) == Err::<MonoBatches, WavError>(WavError::MissingFmt),
{
    lemma_signed(data);
    lemma_long_formats(data, at);
    lemma_chunks(data, at);
    let chunks = audio::wav_chunks(data);
    audio::last_chunk_is_a_chunk(chunks, audio::fmt_id());
    if audio::last_chunk(chunks, audio::fmt_id()) is Some {
        let i = choose|i: int|
            0 <= i < chunks.len() && (#[trigger] chunks[i]).id == audio::fmt_id();
        assert(is_fmt(data, at[i]));
    }
}

/// A file with a format and data is read from the bytes of its last `fmt ` chunk
/// and its last `data` chunk: format tag, channels, sample rate and bits per sample
/// lie 0, 2, 4 and 14 bytes into the `fmt ` chunk, and the audio is the whole body
/// of the `data` chunk. Other format tags than 1 are refused, and other than 16
/// bits where samples are wanted.
pub proof fn file_is_read_from_its_last_chunks(data: Seq<u8>, at: Seq<int>, f: int, d: int)
    requires
        data.len() <= usize::MAX,
        is_signed(data),
        is_walk(data, at),
        formats_are_long(data, at),
        is_last_fmt(data, at, f),
        is_last_data(data, at, d),
    ensures
        ({
            let q = at[f] + 8;
            let tag = two_bytes(data, q);
            let channels = two_bytes(data, q + 2);
            let rate = four_bytes(data, q + 4);
            let bits = two_bytes(data, q + 14);
            let start = at[d] + 8;
            let len = four_bytes(data, at[d] + 4);
            let content = data.subrange(start, start + len);
            &&& match audio::wav_header(data) {
                Ok(info) => {
                    &&& tag == 1
                    &&& info.sample_rate == rate
                    &&& info.channels == channels
                    &&& info.bits_per_sample == bits
                    &&& info.data_offset == start
                    &&& info.data_len == len
                },
                Err(e) => tag != 1 && e == WavError::UnsupportedFormat(tag as u16),
            }
            &&& match audio::wav_audio(data) {
                Ok(audio) => {
                    &&& tag == 1
                    &&& bits == 16
                    &&& audio.sample_rate == rate
                    &&& audio.channels == channels
                    &&& audio.sums == pcm::mono(content, channels)
                },
                Err(e) => {
                    ||| tag != 1 && e == WavError::UnsupportedFormat(tag as u16)
                    ||| tag == 1 && bits != 16 && e == WavError::UnsupportedBits(bits as u16)
                },
            }
            &&& match audio::wav_batches(data) {
                Ok(stream) => {
                    &&& tag == 1
                    &&& bits == 16
                    &&& stream.channels == channels
                    &&& stream.batches == pcm::batches(content, channels)
                },
                Err(e) => {
                    ||| tag != 1 && e == WavError::UnsupportedFormat(tag as u16)
                    ||| tag == 1 && bits != 16 && e == WavError::UnsupportedStreamBits(bits as u16)
                },
            }
        }),
{
    lemma_signed(data);
    lemma_long_formats(data, at);
    lemma_chunks(data, at);
    lemma_last_fmt(data, at, f);
    lemma_last_data(data, at, d);
    lemma_walk_places(data, at, d);
    assert(holds_chunk(data, at[d]));
    lemma_four_bytes(data, at[d] + 4);
    lemma_four_bytes(data, at[f] + 12);
}

/// In a canonical file, whose `fmt ` chunk of 16 bytes is followed by one `data`
/// chunk, every field is read from its fixed place: channels, sample rate and bits
/// from bytes 22, 24 and 34, and all `n` bytes of audio from byte 44 on.
pub proof fn canonical_file_is_read_from_fixed_places(data: Seq<u8>, n: int)
    requires
        data.len() <= usize::MAX,
        data.len() == 44 + n || data.len() == 44 + n + n % 2,
        data.subrange(0, 4) == seq![0x52u8, 0x49, 0x46, 0x46],
        data.subrange(8, 20) == seq![
            0x57u8,
            0x41,
            0x56,
            0x45,
            0x66,
            0x6d,
            0x74,
            0x20,
            16,
            0,
            0,
            0,
        ],
        data.subrange(36, 40) == seq![0x64u8, 0x61, 0x74, 0x61],
        n == data[40] + 0x100 * data[41] + 0x1_0000 * data[42] + 0x100_0000 * data[43],
    ensures
        data[20] + 0x100 * data[21] != 1 ==> audio::wav_header(data) is Err && audio::wav_audio(
            data,
        ) is Err && audio::wav_batches(data) is Err,
        data[20] + 0x100 * data[21] == 1 ==> {
            &&& audio::wav_header(data) matches Ok(info)
            &&& info.sample_rate == data[24] + 0x100 * data[25] + 0x1_0000 * data[26] + 0x100_0000
                * data[27]
            &&& info.channels == data[22] + 0x100 * data[23]
            &&& info.bits_per_sample == data[34] + 0x100 * data[35]
            &&& info.data_offset == 44
            &&& info.data_len == n
        },
        data[20] + 0x100 * data[21] == 1 && data[34] + 0x100 * data[35] == 16 ==> {
            let channels = data[22] + 0x100 * data[23];
            &&& audio::wav_audio(data) matches Ok(audio)
            &&& audio.sample_rate == data[24] + 0x100 * data[25] + 0x1_0000 * data[26] + 0x100_0000
                * data[27]
            &&& audio.channels == channels
            &&& audio.sums == pcm::mono(data.subrange(44, 44 + n), channels)
            &&& audio::wav_batches(data) matches Ok(stream)
            &&& stream.channels == channels
            &&& stream.batches == pcm::batches(data.subrange(44, 44 + n), channels)
        },
{
    let end = 44 + n + n % 2;
    let at = seq![12int, 36, end];
    let sign = data.subrange(0, 4);
    assert(sign[0] == data[0] && sign[1] == data[1] && sign[2] == data[2] && sign[3] == data[3]);
    let head = data.subrange(8, 20);
    assert(head[0] == data[8] && head[1] == data[9] && head[2] == data[10] && head[3] == data[11]);
    assert(head[4] == data[12] && head[5] == data[13] && head[6] == data[14] && head[7]
        == data[15]);
    assert(head[8] == data[16] && head[9] == data[17] && head[10] == data[18] && head[11]
        == data[19]);
    let tail = data.subrange(36, 40);
    assert(tail[0] == data[36] && tail[1] == data[37] && tail[2] == data[38] && tail[3]
        == data[39]);
    assert(is_signed(data));
    assert(is_fmt(data, 12) && four_bytes(data, 16) == 16);
    assert(is_data(data, 36) && four_bytes(data, 40) == n);
    assert(at[0] == 12 && at[1] == 36 && at[2] == end);
    assert(is_walk(data, at));
    assert(formats_are_long(data, at));
    assert(is_last_fmt(data, at, 0));
    assert(is_last_data(data, at, 1));
    file_is_read_from_its_last_chunks(data, at, 0, 1);
}

proof fn lemma_no_data_no_batches(channels: int)
    requires
        channels > 0,
    ensures
        pcm::batches(Seq::empty(), channels).len() == 0,
{
    vstd::arithmetic::div_mod::lemma_small_mod(0, pcm::frame_bytes(channels) as nat);
    let whole = Seq::<u8>::empty().take(
        pcm::align_down(Seq::<u8>::empty().len() as int, pcm::frame_bytes(channels)),
    );
    assert(whole.len() == 0);
}

/// A file with a format but no data has a header with no data, and streams nothing;
/// loading it is refused for that.
pub proof fn file_without_data_has_a_header(data: Seq<u8>, at: Seq<int>, f: int)
    requires
        is_signed(data),
        is_walk(data, at),
        formats_are_long(data, at),
        is_last_fmt(data, at, f),
        forall|k: int| 0 <= k < at.len() - 1 ==> !is_data(data, #[trigger] at[k]),
    ensures
        ({
            let q = at[f] + 8;
            let tag = two_bytes(data, q);
            let bits = two_bytes(data, q + 14);
            &&& match audio::wav_header(data) {
                Ok(info) => {
                    &&& tag == 1
                    &&& info.sample_rate == four_bytes(data, q + 4)
                    &&& info.channels == two_bytes(data, q + 2)
                    &&& info.bits_per_sample == bits
                    &&& info.data_offset == 0
                    &&& info.data_len == 0
                },
                Err(e) => tag != 1 && e == WavError::UnsupportedFormat(tag as u16),
            }
            &&& audio::wav_audio(data) == Err::<MonoAudio, WavError>(WavError::MissingData)
            &&& match audio::wav_batches(data) {
                Ok(stream) => {
                    &&& tag == 1
                    &&& bits == 16
                    &&& stream.channels == two_bytes(data, q + 2)
                    &&& stream.channels > 0 ==> stream.batches.len() == 0
                },
                Err(e) => {
                    ||| tag != 1 && e == WavError::UnsupportedFormat(tag as u16)
                    ||| tag == 1 && bits != 16 && e == WavError::UnsupportedStreamBits(bits as u16)
                },
            }
        }),
{
    lemma_signed(data);
    lemma_long_formats(data, at);
    lemma_chunks(data, at);
    lemma_last_fmt(data, at, f);
    lemma_four_bytes(data, at[f] + 12);
    let chunks = audio::wav_chunks(data);
    audio::last_chunk_is_a_chunk(chunks, audio::data_id());
    if audio::last_chunk(chunks, audio::data_id()) is Some {
        let i = choose|i: int|
            0 <= i < chunks.len() && (#[trigger] chunks[i]).id == audio::data_id();
        assert(is_data(data, at[i]));
    }
    assert(audio::wav_data(data) is None);
    let channels = two_bytes(data, at[f] + 10);
    if channels > 0 {
        lemma_no_data_no_batches(channels);
    }
    if let Ok(info) = audio::wav_header(data) {
        assert(audio::pcm_data(data, info) == Seq::<u8>::empty());
    }
}

} // verus!
