//! Laws of WAV parsing: a file written chunk by chunk is read back, and chunks
//! that the parser does not know change nothing.

use vstd::prelude::*;

use crate::utils::audio;
use crate::utils::audio::{RiffChunk, WavError, WavFormat, WavInfo};
use crate::utils::pcm;

verus! {

// ---------------------------------------------------------------------------
// Writing chunks
// ---------------------------------------------------------------------------

/// `n` as two little-endian bytes.
pub open spec fn le2(n: int) -> Seq<u8> {
    seq![(n % 0x100) as u8, (n / 0x100) as u8]
}

/// `n` as four little-endian bytes.
pub open spec fn le4(n: int) -> Seq<u8> {
    seq![
        (n % 0x100) as u8,
        (n / 0x100 % 0x100) as u8,
        (n / 0x1_0000 % 0x100) as u8,
        (n / 0x100_0000) as u8,
    ]
}

/// A chunk as it stands in a file: identifier, size, body, and the padding byte
/// `pad` where the body is odd.
pub open spec fn chunk_bytes(id: Seq<u8>, content: Seq<u8>, pad: u8) -> Seq<u8> {
    id + le4(content.len() as int) + content + Seq::new(content.len() % 2, |i: int| pad)
}

proof fn lemma_le4(s: Seq<u8>, i: int, n: int)
    requires
        0 <= i,
        i + 4 <= s.len(),
        0 <= n < 0x1_0000_0000,
        s.subrange(i, i + 4) == le4(n),
    ensures
        pcm::le_u32(s, i) == n,
{
    let t = s.subrange(i, i + 4);
    assert(t[0] == s[i] && t[1] == s[i + 1] && t[2] == s[i + 2] && t[3] == s[i + 3]);
}

proof fn lemma_le2(s: Seq<u8>, i: int, n: int)
    requires
        0 <= i,
        i + 2 <= s.len(),
        0 <= n < 0x1_0000,
        s.subrange(i, i + 2) == le2(n),
    ensures
        pcm::le_u16(s, i) == n,
{
    let t = s.subrange(i, i + 2);
    assert(t[0] == s[i] && t[1] == s[i + 1]);
}

/// A chunk that was written at `p` is found there.
proof fn lemma_written_chunk(data: Seq<u8>, p: int, id: Seq<u8>, content: Seq<u8>, pad: u8)
    requires
        0 <= p,
        id.len() == 4,
        content.len() < 0x1_0000_0000,
        p + chunk_bytes(id, content, pad).len() <= data.len(),
        data.subrange(p, p + chunk_bytes(id, content, pad).len()) == chunk_bytes(id, content, pad),
    ensures
        audio::chunk_fits(data, p),
        audio::chunk_at(data, p) == (RiffChunk { id, start: p + 8, len: content.len() as int }),
        audio::chunk_at(data, p).next() == p + chunk_bytes(id, content, pad).len(),
        data.subrange(p + 8, p + 8 + content.len()) == content,
{
    let b = chunk_bytes(id, content, pad);
    let here = data.subrange(p, p + b.len());
    assert(data.subrange(p, p + 4) == id) by {
        assert(here.subrange(0, 4) == id);
        assert(here.subrange(0, 4) == data.subrange(p, p + 4));
    }
    assert(data.subrange(p + 4, p + 8) == le4(content.len() as int)) by {
        assert(here.subrange(4, 8) == le4(content.len() as int));
        assert(here.subrange(4, 8) == data.subrange(p + 4, p + 8));
    }
    lemma_le4(data, p + 4, content.len() as int);
    assert(data.subrange(p + 8, p + 8 + content.len()) == content) by {
        assert(here.subrange(8, 8int + content.len()) == content);
        assert(here.subrange(8, 8int + content.len()) == data.subrange(p + 8, p + 8 + content.len()));
    }
}

// ---------------------------------------------------------------------------
// Reading back a canonical file
// ---------------------------------------------------------------------------

/// The body of a PCM `fmt ` chunk.
pub open spec fn format_bytes(f: WavFormat, byte_rate: u32, block_align: u16) -> Seq<u8> {
    le2(f.format as int) + le2(f.channels as int) + le4(f.sample_rate as int) + le4(
        byte_rate as int,
    ) + le2(block_align as int) + le2(f.bits_per_sample as int)
}

/// A canonical WAV file: the RIFF header, a `fmt ` chunk and a `data` chunk.
pub open spec fn canonical_file(
    riff_size: u32,
    f: WavFormat,
    byte_rate: u32,
    block_align: u16,
    content: Seq<u8>,
    pad: u8,
) -> Seq<u8> {
    audio::riff_id() + le4(riff_size as int) + audio::wave_id() + chunk_bytes(
        audio::fmt_id(),
        format_bytes(f, byte_rate, block_align),
        pad,
    ) + chunk_bytes(audio::data_id(), content, pad)
}

proof fn lemma_written_format(
    data: Seq<u8>,
    p: int,
    f: WavFormat,
    byte_rate: u32,
    block_align: u16,
)
    requires
        0 <= p,
        p + 16 <= data.len(),
        data.subrange(p, p + 16) == format_bytes(f, byte_rate, block_align),
    ensures
        audio::format_at(data, p) == f,
{
    let b = format_bytes(f, byte_rate, block_align);
    assert(b.len() == 16);
    assert(data.subrange(p, p + 2) == le2(f.format as int)) by {
        assert(b.subrange(0, 2) == le2(f.format as int));
        assert(data.subrange(p, p + 16).subrange(0, 2) == data.subrange(p, p + 2));
    }
    assert(data.subrange(p + 2, p + 4) == le2(f.channels as int)) by {
        assert(b.subrange(2, 4) == le2(f.channels as int));
        assert(data.subrange(p, p + 16).subrange(2, 4) == data.subrange(p + 2, p + 4));
    }
    assert(data.subrange(p + 4, p + 8) == le4(f.sample_rate as int)) by {
        assert(b.subrange(4, 8) == le4(f.sample_rate as int));
        assert(data.subrange(p, p + 16).subrange(4, 8) == data.subrange(p + 4, p + 8));
    }
    assert(data.subrange(p + 14, p + 16) == le2(f.bits_per_sample as int)) by {
        assert(b.subrange(14, 16) == le2(f.bits_per_sample as int));
        assert(data.subrange(p, p + 16).subrange(14, 16) == data.subrange(p + 14, p + 16));
    }
    lemma_le2(data, p, f.format as int);
    lemma_le2(data, p + 2, f.channels as int);
    lemma_le4(data, p + 4, f.sample_rate as int);
    lemma_le2(data, p + 14, f.bits_per_sample as int);
}

/// The format and the data of a canonical WAV file are read back as written,
/// with the data at offset 44: by its header, by loading it and by streaming it.
pub proof fn canonical_file_is_read_back(
    riff_size: u32,
    f: WavFormat,
    byte_rate: u32,
    block_align: u16,
    content: Seq<u8>,
    pad: u8,
)
    requires
        content.len() < 0x1_0000_0000,
    ensures
        ({
            let data = canonical_file(riff_size, f, byte_rate, block_align, content, pad);
            &&& audio::wav_format(data) == Ok::<WavFormat, WavError>(f)
            &&& audio::wav_data(data) matches Some(chunk) && chunk.start == 44 && audio::body(
                data,
                chunk,
            ) == content
            &&& f.format == 1 ==> audio::wav_header(data) == Ok::<WavInfo, WavError>(
                WavInfo {
                    sample_rate: f.sample_rate,
                    channels: f.channels,
                    bits_per_sample: f.bits_per_sample,
                    data_offset: 44,
                    data_len: content.len() as usize,
                },
            )
            &&& f.format == 1 && f.bits_per_sample == 16 ==> {
                &&& audio::wav_audio(data) matches Ok(audio)
                &&& audio.sample_rate == f.sample_rate
                &&& audio.channels == f.channels
                &&& audio.sums == pcm::mono(content, f.channels as int)
                &&& audio::wav_batches(data) matches Ok(stream)
                &&& stream.channels == f.channels
                &&& stream.batches == pcm::batches(content, f.channels as int)
            }
            &&& f.format != 1 ==> {
                &&& audio::wav_header(data) == Err::<WavInfo, WavError>(
                    WavError::UnsupportedFormat(f.format),
                )
                &&& audio::wav_audio(data) is Err
                &&& audio::wav_batches(data) is Err
            }
        }),
{
    let data = canonical_file(riff_size, f, byte_rate, block_align, content, pad);
    let fmt = chunk_bytes(audio::fmt_id(), format_bytes(f, byte_rate, block_align), pad);
    let tail = chunk_bytes(audio::data_id(), content, pad);
    assert(fmt.len() == 24);
    assert(data.subrange(0, 4) == audio::riff_id());
    assert(data.subrange(8, 12) == audio::wave_id());
    assert(data.subrange(12, 36) == fmt);
    assert(data.subrange(36, 36int + tail.len()) == tail);
    lemma_written_chunk(data, 12, audio::fmt_id(), format_bytes(f, byte_rate, block_align), pad);
    lemma_written_chunk(data, 36, audio::data_id(), content, pad);
    lemma_written_format(data, 20, f, byte_rate, block_align);
    let c0 = audio::chunk_at(data, 12);
    let c1 = audio::chunk_at(data, 36);
    assert(c1.next() == data.len());
    assert(audio::riff_chunks(data, c1.next()) == Seq::<RiffChunk>::empty());
    assert(audio::riff_chunks(data, 36) == seq![c1]);
    assert(audio::wav_chunks(data) == seq![c0, c1]);
    let chunks = seq![c0, c1];
    assert(chunks.drop_last() == seq![c0]);
    assert(audio::fmt_id()[0] == 0x66 && audio::data_id()[0] == 0x64);
    assert(seq![c0].last() == c0 && chunks.last() == c1);
    assert(audio::last_chunk(seq![c0], audio::fmt_id()) == Some(c0));
    assert(audio::last_chunk(chunks, audio::fmt_id()) == Some(c0));
    assert(audio::last_chunk(chunks, audio::data_id()) == Some(c1));
    assert(!audio::has_short_fmt(chunks)) by {
        assert(c0.len == 16);
    }
    assert(content.len() as usize == content.len());
    if let Ok(info) = audio::wav_header(data) {
        assert(audio::pcm_data(data, info) == content);
    }
}

// ---------------------------------------------------------------------------
// Unknown chunks
// ---------------------------------------------------------------------------

/// A chunk header is looked for at `p` when the chunks from `from` on are walked.
pub open spec fn is_boundary(data: Seq<u8>, from: int, p: int) -> bool
    decreases data.len() + 1 - from,
{
    from == p || (audio::chunk_fits(data, from) && is_boundary(
        data,
        audio::chunk_at(data, from).next(),
        p,
    ))
}

/// `data` with `bytes` inserted at `p`.
pub open spec fn insert(data: Seq<u8>, p: int, bytes: Seq<u8>) -> Seq<u8> {
    data.take(p) + bytes + data.skip(p)
}

/// `chunks` in a file in which they lie `d` bytes further on.
pub open spec fn shifted(chunks: Seq<RiffChunk>, d: int) -> Seq<RiffChunk> {
    chunks.map_values(
        |c: RiffChunk| RiffChunk { id: c.id, start: c.start + d, len: c.len },
    )
}

/// The chunks from `from` on that lie before `p`.
spec fn chunks_before(data: Seq<u8>, from: int, p: int) -> Seq<RiffChunk>
    decreases data.len() + 1 - from,
{
    if from != p && audio::chunk_fits(data, from) {
        seq![audio::chunk_at(data, from)] + chunks_before(
            data,
            audio::chunk_at(data, from).next(),
            p,
        )
    } else {
        seq![]
    }
}

proof fn lemma_boundary_order(data: Seq<u8>, from: int, p: int)
    requires
        is_boundary(data, from, p),
    ensures
        from <= p,
    decreases data.len() + 1 - from,
{
    if from != p {
        lemma_boundary_order(data, audio::chunk_at(data, from).next(), p);
    }
}

proof fn lemma_chunks_before(data: Seq<u8>, from: int, p: int)
    requires
        0 <= from,
        is_boundary(data, from, p),
    ensures
        audio::riff_chunks(data, from) == chunks_before(data, from, p) + audio::riff_chunks(data, p),
        forall|i: int|
            0 <= i < chunks_before(data, from, p).len() ==> {
                let c = #[trigger] chunks_before(data, from, p)[i];
                &&& from + 8 <= c.start
                &&& 0 <= c.len
                &&& c.start + c.len <= p
            },
    decreases data.len() + 1 - from,
{
    let b = chunks_before(data, from, p);
    if from != p {
        let c = audio::chunk_at(data, from);
        let rest = chunks_before(data, c.next(), p);
        lemma_chunks_before(data, c.next(), p);
        lemma_boundary_order(data, c.next(), p);
        assert forall|i: int| 0 <= i < b.len() implies {
            let c = #[trigger] b[i];
            &&& from + 8 <= c.start
            &&& 0 <= c.len
            &&& c.start + c.len <= p
        } by {
            if i > 0 {
                assert(b[i] == rest[i - 1]);
            }
        }
    }
    assert(audio::riff_chunks(data, from) == b + audio::riff_chunks(data, p));
}

proof fn lemma_shifted_chunks(data: Seq<u8>, other: Seq<u8>, pos: int, d: int)
    requires
        0 <= pos,
        0 <= d,
        other.len() == data.len() + d,
        forall|i: int| pos <= i < data.len() ==> other[i + d] == #[trigger] data[i],
    ensures
        audio::riff_chunks(other, pos + d) == shifted(audio::riff_chunks(data, pos), d),
    decreases data.len() + 1 - pos,
{
    if pos + 8 <= data.len() {
        assert(other[pos + d] == data[pos]);
        assert(other[pos + 1 + d] == data[pos + 1]);
        assert(other[pos + 2 + d] == data[pos + 2]);
        assert(other[pos + 3 + d] == data[pos + 3]);
        assert(other[pos + 4 + d] == data[pos + 4]);
        assert(other[pos + 5 + d] == data[pos + 5]);
        assert(other[pos + 6 + d] == data[pos + 6]);
        assert(other[pos + 7 + d] == data[pos + 7]);
        assert(other.subrange(pos + d, pos + d + 4) == data.subrange(pos, pos + 4));
        assert(pcm::le_u32(other, pos + d + 4) == pcm::le_u32(data, pos + 4));
    }
    assert(audio::chunk_fits(other, pos + d) == audio::chunk_fits(data, pos));
    if audio::chunk_fits(data, pos) {
        let c = audio::chunk_at(data, pos);
        lemma_shifted_chunks(data, other, c.next(), d);
        assert(audio::chunk_at(other, pos + d).next() == c.next() + d);
    }
    assert(audio::riff_chunks(other, pos + d) == shifted(audio::riff_chunks(data, pos), d));
}

proof fn lemma_chunks_up_to_insertion(data: Seq<u8>, from: int, p: int, bytes: Seq<u8>)
    requires
        0 <= from,
        is_boundary(data, from, p),
        p <= data.len(),
    ensures
        audio::riff_chunks(insert(data, p, bytes), from) == chunks_before(data, from, p)
            + audio::riff_chunks(insert(data, p, bytes), p),
    decreases data.len() + 1 - from,
{
    let other = insert(data, p, bytes);
    if from != p {
        let c = audio::chunk_at(data, from);
        lemma_boundary_order(data, c.next(), p);
        assert(other.subrange(from, from + 4) == data.subrange(from, from + 4));
        assert(other[from + 4] == data[from + 4] && other[from + 5] == data[from + 5]);
        assert(other[from + 6] == data[from + 6] && other[from + 7] == data[from + 7]);
        assert(audio::chunk_at(other, from) == c);
        lemma_chunks_up_to_insertion(data, c.next(), p, bytes);
    }
    assert(audio::riff_chunks(other, from) == chunks_before(data, from, p) + audio::riff_chunks(
        other,
        p,
    ));
}

proof fn lemma_last_chunk_of_sum(a: Seq<RiffChunk>, b: Seq<RiffChunk>, id: Seq<u8>)
    ensures
        audio::last_chunk(a + b, id) == match audio::last_chunk(b, id) {
            Some(c) => Some(c),
            None => audio::last_chunk(a, id),
        },
    decreases b.len(),
{
    if b.len() == 0 {
        assert(a + b == a);
    } else {
        assert((a + b).drop_last() == a + b.drop_last());
        assert((a + b).last() == b.last());
        lemma_last_chunk_of_sum(a, b.drop_last(), id);
    }
}

proof fn lemma_last_chunk_of_shifted(chunks: Seq<RiffChunk>, d: int, id: Seq<u8>)
    ensures
        audio::last_chunk(shifted(chunks, d), id) == match audio::last_chunk(chunks, id) {
            Some(c) => Some(RiffChunk { id: c.id, start: c.start + d, len: c.len }),
            None => None,
        },
    decreases chunks.len(),
{
    if chunks.len() > 0 {
        assert(shifted(chunks, d).drop_last() == shifted(chunks.drop_last(), d));
        lemma_last_chunk_of_shifted(chunks.drop_last(), d, id);
    }
}

proof fn lemma_short_fmt_of_sum(a: Seq<RiffChunk>, b: Seq<RiffChunk>)
    ensures
        audio::has_short_fmt(a + b) == (audio::has_short_fmt(a) || audio::has_short_fmt(b)),
{
    let s = a + b;
    if audio::has_short_fmt(a) {
        let i = choose|i: int| 0 <= i < a.len() && audio::is_short_fmt(#[trigger] a[i]);
        assert(s[i] == a[i]);
    }
    if audio::has_short_fmt(b) {
        let i = choose|i: int| 0 <= i < b.len() && audio::is_short_fmt(#[trigger] b[i]);
        assert(s[a.len() + i] == b[i]);
    }
    if audio::has_short_fmt(s) {
        let i = choose|i: int| 0 <= i < s.len() && audio::is_short_fmt(#[trigger] s[i]);
        if i < a.len() {
            assert(a[i] == s[i]);
        } else {
            assert(b[i - a.len()] == s[i]);
        }
    }
}

proof fn lemma_short_fmt_of_shifted(chunks: Seq<RiffChunk>, d: int)
    ensures
        audio::has_short_fmt(shifted(chunks, d)) == audio::has_short_fmt(chunks),
{
    let s = shifted(chunks, d);
    if audio::has_short_fmt(chunks) {
        let i = choose|i: int|
            0 <= i < chunks.len() && audio::is_short_fmt(#[trigger] chunks[i]);
        assert(audio::is_short_fmt(s[i]));
    }
    if audio::has_short_fmt(s) {
        let i = choose|i: int| 0 <= i < s.len() && audio::is_short_fmt(#[trigger] s[i]);
        assert(audio::is_short_fmt(chunks[i]));
    }
}

/// The same chunk of a file before and after an insertion of `d` bytes at `p`.
spec fn moved(c: RiffChunk, p: int, d: int) -> RiffChunk {
    RiffChunk {
        id: c.id,
        start: if c.start > p {
            c.start + d
        } else {
            c.start
        },
        len: c.len,
    }
}

proof fn lemma_last_chunk_after_insertion(
    data: Seq<u8>,
    p: int,
    id: Seq<u8>,
    content: Seq<u8>,
    pad: u8,
    wanted: Seq<u8>,
)
    requires
        is_boundary(data, 12, p),
        p <= data.len(),
        id.len() == 4,
        content.len() < 0x1_0000_0000,
        id != wanted,
    ensures
        ({
            let other = insert(data, p, chunk_bytes(id, content, pad));
            let d = chunk_bytes(id, content, pad).len() as int;
            audio::last_chunk(audio::wav_chunks(other), wanted) == match audio::last_chunk(
                audio::wav_chunks(data),
                wanted,
            ) {
                Some(c) => Some(moved(c, p, d)),
                None => None,
            }
        }),
{
    let b = chunk_bytes(id, content, pad);
    let d = b.len() as int;
    let other = insert(data, p, b);
    let before = chunks_before(data, 12, p);
    let after = audio::riff_chunks(data, p);
    lemma_chunks_after_insertion(data, p, id, content, pad);
    lemma_boundary_order(data, 12, p);
    lemma_chunks_before(data, 12, p);
    let extra = seq![audio::chunk_at(other, p)];
    lemma_last_chunk_of_sum(before, extra + shifted(after, d), wanted);
    lemma_last_chunk_of_sum(extra, shifted(after, d), wanted);
    lemma_last_chunk_of_shifted(after, d, wanted);
    lemma_last_chunk_of_sum(before, after, wanted);
    assert(extra.drop_last() == Seq::<RiffChunk>::empty());
    assert(extra.last().id == id);
    assert(audio::last_chunk(extra, wanted) is None);
    audio::last_chunk_is_a_chunk(after, wanted);
    audio::last_chunk_is_a_chunk(before, wanted);
    audio::chunks_lie_in_file(data, p);
}

proof fn lemma_chunks_after_insertion(data: Seq<u8>, p: int, id: Seq<u8>, content: Seq<u8>, pad: u8)
    requires
        is_boundary(data, 12, p),
        p <= data.len(),
        id.len() == 4,
        content.len() < 0x1_0000_0000,
    ensures
        ({
            let other = insert(data, p, chunk_bytes(id, content, pad));
            let d = chunk_bytes(id, content, pad).len() as int;
            &&& audio::chunk_at(other, p).id == id
            &&& audio::wav_chunks(other) == chunks_before(data, 12, p) + (seq![
                audio::chunk_at(other, p),
            ] + shifted(audio::riff_chunks(data, p), d))
        }),
{
    let b = chunk_bytes(id, content, pad);
    let other = insert(data, p, b);
    lemma_boundary_order(data, 12, p);
    lemma_chunks_up_to_insertion(data, 12, p, b);
    assert(other.subrange(p, p + b.len()) == b);
    lemma_written_chunk(other, p, id, content, pad);
    assert forall|i: int| p <= i < data.len() implies other[i + b.len()] == #[trigger] data[i] by {
        assert(data.skip(p)[i - p] == data[i]);
    }
    lemma_shifted_chunks(data, other, p, b.len() as int);
}

/// A chunk with an unknown identifier (e.g. `LIST`), inserted where a chunk can
/// stand, changes neither the format nor the audio of a WAV file.
pub proof fn unknown_chunk_changes_no_audio(
    data: Seq<u8>,
    p: int,
    id: Seq<u8>,
    content: Seq<u8>,
    pad: u8,
)
    requires
        audio::is_wav(data),
        is_boundary(data, 12, p),
        p <= data.len(),
        id.len() == 4,
        id != audio::fmt_id(),
        id != audio::data_id(),
        content.len() < 0x1_0000_0000,
    ensures
        ({
            let other = insert(data, p, chunk_bytes(id, content, pad));
            &&& audio::wav_format(other) == audio::wav_format(data)
            &&& audio::wav_audio(other) == audio::wav_audio(data)
        }),
{
    let b = chunk_bytes(id, content, pad);
    let d = b.len() as int;
    let other = insert(data, p, b);
    let before = chunks_before(data, 12, p);
    let after = audio::riff_chunks(data, p);
    lemma_boundary_order(data, 12, p);
    assert(other.subrange(0, 4) == data.subrange(0, 4));
    assert(other.subrange(8, 12) == data.subrange(8, 12));
    lemma_chunks_before(data, 12, p);
    lemma_chunks_after_insertion(data, p, id, content, pad);
    let extra = seq![audio::chunk_at(other, p)];
    lemma_short_fmt_of_sum(before, extra + shifted(after, d));
    lemma_short_fmt_of_sum(extra, shifted(after, d));
    lemma_short_fmt_of_shifted(after, d);
    lemma_short_fmt_of_sum(before, after);
    assert(!audio::has_short_fmt(extra));
    lemma_last_chunk_after_insertion(data, p, id, content, pad, audio::fmt_id());
    lemma_last_chunk_after_insertion(data, p, id, content, pad, audio::data_id());
    audio::last_chunk_is_a_chunk(audio::wav_chunks(data), audio::fmt_id());
    audio::last_chunk_is_a_chunk(audio::wav_chunks(data), audio::data_id());
    lemma_chunk_side(data, p);
    if !audio::has_short_fmt(audio::wav_chunks(data)) {
        if let Some(c) = audio::last_chunk(audio::wav_chunks(data), audio::fmt_id()) {
            lemma_moved_bytes(data, p, b, c);
            assert(c.len >= 16) by {
                let chunks = audio::wav_chunks(data);
                let i = choose|i: int|
                    0 <= i < chunks.len() && c == #[trigger] chunks[i] && c.id == audio::fmt_id();
                assert(!audio::is_short_fmt(chunks[i]));
            }
            let m = moved(c, p, d);
            assert(audio::body(other, m) == audio::body(data, c));
            assert(other.subrange(m.start, m.start + 16) == audio::body(other, m).take(16));
            assert(data.subrange(c.start, c.start + 16) == audio::body(data, c).take(16));
            lemma_same_format(data, c.start, other, m.start);
        }
    }
    if let Some(c) = audio::last_chunk(audio::wav_chunks(data), audio::data_id()) {
        lemma_moved_bytes(data, p, b, c);
    }
}

proof fn lemma_same_format(a: Seq<u8>, i: int, b: Seq<u8>, j: int)
    requires
        0 <= i,
        0 <= j,
        i + 16 <= a.len(),
        j + 16 <= b.len(),
        a.subrange(i, i + 16) == b.subrange(j, j + 16),
    ensures
        audio::format_at(a, i) == audio::format_at(b, j),
{
    let x = a.subrange(i, i + 16);
    let y = b.subrange(j, j + 16);
    assert(x[0] == a[i] && x[1] == a[i + 1] && x[2] == a[i + 2] && x[3] == a[i + 3]);
    assert(x[4] == a[i + 4] && x[5] == a[i + 5] && x[6] == a[i + 6] && x[7] == a[i + 7]);
    assert(x[14] == a[i + 14] && x[15] == a[i + 15]);
    assert(y[0] == b[j] && y[1] == b[j + 1] && y[2] == b[j + 2] && y[3] == b[j + 3]);
    assert(y[4] == b[j + 4] && y[5] == b[j + 5] && y[6] == b[j + 6] && y[7] == b[j + 7]);
    assert(y[14] == b[j + 14] && y[15] == b[j + 15]);
}

proof fn lemma_chunk_side(data: Seq<u8>, p: int)
    requires
        is_boundary(data, 12, p),
    ensures
        forall|i: int|
            0 <= i < audio::wav_chunks(data).len() ==> {
                let c = #[trigger] audio::wav_chunks(data)[i];
                &&& 20 <= c.start
                &&& 0 <= c.len
                &&& c.start + c.len <= data.len()
                &&& (c.start + c.len <= p || c.start >= p + 8)
            },
{
    lemma_chunks_before(data, 12, p);
    lemma_boundary_order(data, 12, p);
    audio::chunks_lie_in_file(data, 12);
    audio::chunks_lie_in_file(data, p);
    let before = chunks_before(data, 12, p);
    let after = audio::riff_chunks(data, p);
    let all = audio::wav_chunks(data);
    assert forall|i: int| 0 <= i < all.len() implies {
        let c = #[trigger] all[i];
        &&& 20 <= c.start
        &&& 0 <= c.len
        &&& c.start + c.len <= data.len()
        &&& (c.start + c.len <= p || c.start >= p + 8)
    } by {
        if i < before.len() {
            assert(all[i] == before[i]);
        } else {
            assert(all[i] == after[i - before.len()]);
        }
    }
}

proof fn lemma_moved_bytes(data: Seq<u8>, p: int, bytes: Seq<u8>, c: RiffChunk)
    requires
        0 <= p <= data.len(),
        0 <= c.start,
        0 <= c.len,
        c.start + c.len <= data.len(),
        c.start + c.len <= p || c.start >= p + 8,
    ensures
        audio::body(insert(data, p, bytes), moved(c, p, bytes.len() as int)) == audio::body(data, c),
{
    let other = insert(data, p, bytes);
    let m = moved(c, p, bytes.len() as int);
    assert(audio::body(other, m) == audio::body(data, c));
}

/// The same insertion moves the data of the file by the size of the chunk where
/// it lies behind it, and changes nothing else of the header.
pub proof fn unknown_chunk_moves_the_data(
    data: Seq<u8>,
    p: int,
    id: Seq<u8>,
    content: Seq<u8>,
    pad: u8,
)
    requires
        audio::is_wav(data),
        is_boundary(data, 12, p),
        p <= data.len(),
        id.len() == 4,
        id != audio::fmt_id(),
        id != audio::data_id(),
        content.len() < 0x1_0000_0000,
        data.len() + chunk_bytes(id, content, pad).len() <= usize::MAX,
    ensures
        ({
            let d = chunk_bytes(id, content, pad).len();
            let other = insert(data, p, chunk_bytes(id, content, pad));
            audio::wav_header(other) == match audio::wav_header(data) {
                Ok(info) => Ok(
                    WavInfo {
                        data_offset: if info.data_offset > p {
                            (info.data_offset + d) as usize
                        } else {
                            info.data_offset
                        },
                        ..info
                    },
                ),
                Err(e) => Err(e),
            }
        }),
{
    unknown_chunk_changes_no_audio(data, p, id, content, pad);
    lemma_last_chunk_after_insertion(data, p, id, content, pad, audio::data_id());
    audio::wav_data_lies_in_file(data);
    lemma_boundary_order(data, 12, p);
}

// ---------------------------------------------------------------------------
// What the header does not depend on
// ---------------------------------------------------------------------------

/// Byte `i` lies in the padding behind `c`, or in its body where `c` is no `fmt `
/// chunk.
pub open spec fn is_payload_of(c: RiffChunk, i: int) -> bool {
    &&& c.start <= i < c.next()
    &&& c.id == audio::fmt_id() ==> c.start + c.len <= i
}

/// Byte `i` is payload of one of `chunks`.
pub open spec fn is_payload(chunks: Seq<RiffChunk>, i: int) -> bool {
    exists|k: int| 0 <= k < chunks.len() && is_payload_of(#[trigger] chunks[k], i)
}

/// `other` has the length of `data`, and differs from it at most in the RIFF size
/// field (bytes 4 to 7), in padding, and in chunk bodies other than those of
/// `fmt ` chunks, such as the PCM data.
pub open spec fn same_structure(data: Seq<u8>, other: Seq<u8>) -> bool {
    &&& other.len() == data.len()
    &&& forall|i: int|
        0 <= i < data.len() && !(4 <= i < 8) && !is_payload(audio::wav_chunks(data), i)
            ==> other[i] == #[trigger] data[i]
}

proof fn lemma_chunks_in_order(data: Seq<u8>, pos: int)
    requires
        0 <= pos,
    ensures
        ({
            let chunks = audio::riff_chunks(data, pos);
            &&& forall|i: int|
                0 <= i < chunks.len() ==> pos + 8 <= (#[trigger] chunks[i]).start <= chunks[i].start
                    + chunks[i].len <= data.len()
            &&& forall|i: int, j: int|
                0 <= i < j < chunks.len() ==> (#[trigger] chunks[i]).next() + 8 <= (
                #[trigger] chunks[j]).start
        }),
    decreases data.len() + 1 - pos,
{
    audio::chunks_lie_in_file(data, pos);
    if audio::chunk_fits(data, pos) {
        let c = audio::chunk_at(data, pos);
        let rest = audio::riff_chunks(data, c.next());
        let chunks = audio::riff_chunks(data, pos);
        lemma_chunks_in_order(data, c.next());
        assert forall|i: int, j: int| 0 <= i < j < chunks.len() implies (
        #[trigger] chunks[i]).next() + 8 <= (#[trigger] chunks[j]).start by {
            assert(chunks[j] == rest[j - 1]);
            if i > 0 {
                assert(chunks[i] == rest[i - 1]);
            }
        }
    }
}

proof fn lemma_same_chunks(data: Seq<u8>, other: Seq<u8>, pos: int)
    requires
        0 <= pos,
        other.len() == data.len(),
        forall|i: int|
            pos <= i < data.len() && !is_payload(audio::riff_chunks(data, pos), i) ==> other[i]
                == #[trigger] data[i],
    ensures
        audio::riff_chunks(other, pos) == audio::riff_chunks(data, pos),
    decreases data.len() + 1 - pos,
{
    let chunks = audio::riff_chunks(data, pos);
    lemma_chunks_in_order(data, pos);
    if pos + 8 <= data.len() {
        assert forall|i: int| pos <= i < pos + 8 implies other[i] == #[trigger] data[i] by {
            assert(!is_payload(chunks, i));
        }
        assert(other.subrange(pos, pos + 4) == data.subrange(pos, pos + 4));
        assert(other[pos + 4] == data[pos + 4] && other[pos + 5] == data[pos + 5]);
        assert(other[pos + 6] == data[pos + 6] && other[pos + 7] == data[pos + 7]);
    }
    if audio::chunk_fits(data, pos) {
        let c = audio::chunk_at(data, pos);
        let rest = audio::riff_chunks(data, c.next());
        assert(chunks[0] == c);
        assert forall|i: int|
            c.next() <= i < data.len() && !is_payload(rest, i) implies other[i]
            == #[trigger] data[i] by {
            if is_payload(chunks, i) {
                let k = choose|k: int|
                    0 <= k < chunks.len() && is_payload_of(#[trigger] chunks[k], i);
                assert(k > 0);
                assert(chunks[k] == rest[k - 1]);
                assert(is_payload(rest, i));
            }
        }
        lemma_same_chunks(data, other, c.next());
    }
}

/// Neither the RIFF size field nor padding nor the bytes of any chunk body but
/// that of a `fmt ` chunk, the PCM data among them, influence the header.
pub proof fn header_depends_on_structure_alone(data: Seq<u8>, other: Seq<u8>)
    requires
        same_structure(data, other),
    ensures
        audio::wav_format(other) == audio::wav_format(data),
        audio::wav_header(other) == audio::wav_header(data),
{
    let chunks = audio::wav_chunks(data);
    lemma_chunks_in_order(data, 12);
    lemma_same_chunks(data, other, 12);
    if data.len() >= 44 {
        assert forall|i: int| 0 <= i < 12 && !(4 <= i < 8) implies other[i] == #[trigger] data[i] by {
            assert(!is_payload(chunks, i));
        }
        assert(other.subrange(0, 4) == data.subrange(0, 4));
        assert(other.subrange(8, 12) == data.subrange(8, 12));
    }
    audio::last_chunk_is_a_chunk(chunks, audio::fmt_id());
    if let Some(c) = audio::last_chunk(chunks, audio::fmt_id()) {
        if !audio::has_short_fmt(chunks) {
            let k = choose|k: int|
                0 <= k < chunks.len() && c == #[trigger] chunks[k] && c.id == audio::fmt_id();
            assert(!audio::is_short_fmt(chunks[k]));
            assert forall|i: int| c.start <= i < c.start + c.len implies other[i]
                == #[trigger] data[i] by {
                if is_payload(chunks, i) {
                    let m = choose|m: int|
                        0 <= m < chunks.len() && is_payload_of(#[trigger] chunks[m], i);
                    if m < k {
                        assert(chunks[m].next() + 8 <= chunks[k].start);
                    } else if m > k {
                        assert(chunks[k].next() + 8 <= chunks[m].start);
                    }
                }
            }
            assert(other.subrange(c.start, c.start + 16) == data.subrange(c.start, c.start + 16));
            lemma_same_format(data, c.start, other, c.start);
        }
    }
}

/// The RIFF size field influences nothing that is read from a file.
pub proof fn riff_size_is_ignored(data: Seq<u8>, other: Seq<u8>)
    requires
        data.len() <= usize::MAX,
        other.len() == data.len(),
        forall|i: int|
            0 <= i < data.len() && !(4 <= i < 8) ==> other[i] == #[trigger] data[i],
    ensures
        audio::wav_header(other) == audio::wav_header(data),
        audio::wav_audio(other) == audio::wav_audio(data),
        audio::wav_batches(other) == audio::wav_batches(data),
{
    header_depends_on_structure_alone(data, other);
    audio::wav_data_lies_in_file(data);
    lemma_same_chunks(data, other, 12);
    if let Some(c) = audio::wav_data(data) {
        assert(audio::body(other, c) == audio::body(data, c));
    }
    if let Ok(info) = audio::wav_header(data) {
        assert(audio::pcm_data(other, info) == audio::pcm_data(data, info));
    }
}

} // verus!
