//! RIFF/WAV files: the chunk list, the header, and the PCM data as mono samples.

use vstd::prelude::*;
use vstd::string::StringExecFns;

use crate::utils::pcm;
use crate::utils::pcm::{read_u16, read_u32};

verus! {

// ---------------------------------------------------------------------------
// Errors
// ---------------------------------------------------------------------------

/// Why a WAV file was refused.
#[derive(Debug, Clone, Copy, PartialEq, Eq, Structural)]
pub enum WavError {
    /// The RIFF/WAVE signature is missing, or the file is too short for one.
    NotWav,
    /// A `fmt ` chunk has fewer than 16 bytes.
    FmtTooSmall,
    /// There is no `fmt ` chunk.
    MissingFmt,
    /// There is no `data` chunk.
    MissingData,
    /// The format tag is not 1 (PCM).
    UnsupportedFormat(u16),
    /// The samples of a file that is loaded whole do not have 16 bits.
    UnsupportedBits(u16),
    /// The samples of a file that is streamed do not have 16 bits.
    UnsupportedStreamBits(u16),
}

/// `n` in decimal digits.
pub open spec fn decimal(n: nat) -> Seq<char>
    decreases n,
{
    if n < 10 {
        seq![(('0' as u32) + n) as char]
    } else {
        decimal(n / 10).push((('0' as u32) + n % 10) as char)
    }
}

/// Decimal digits spell their number: each is one of `0` to `9`, read from the left
/// they give `n`, and only zero begins with a `0`.
pub proof fn decimal_spells_the_number(n: nat)
    ensures
        decimal(n).len() > 0,
        forall|i: int| 0 <= i < decimal(n).len() ==> '0' <= #[trigger] decimal(n)[i] <= '9',
        decimal(n).fold_left(0int, |value: int, c: char| 10 * value + (c as int - '0' as int)) == n,
        n > 0 ==> decimal(n)[0] != '0',
    decreases n,
{
    let read = |value: int, c: char| 10 * value + (c as int - '0' as int);
    let d = decimal(n);
    reveal_with_fuel(Seq::fold_left, 2);
    if n >= 10 {
        decimal_spells_the_number(n / 10);
        assert(d.drop_last() == decimal(n / 10));
        assert(d.last() as int == '0' as int + n % 10);
        assert(d[0] == decimal(n / 10)[0]);
    } else {
        assert(d.drop_last() == Seq::<char>::empty());
        assert(d.last() as int == '0' as int + n);
    }
}

/// A message about an unsupported value ends with that value in digits, followed
/// by the unit where it counts bits; it says what is supported.
pub proof fn messages_name_the_value(v: u16)
    ensures
        WavError::UnsupportedFormat(v).text()
            == "only PCM WAV (format 1) is supported, got format "@ + decimal(v as nat),
        WavError::UnsupportedBits(v).text() == "only 16-bit PCM is supported, got "@ + decimal(
            v as nat,
        ) + " bits"@,
        WavError::UnsupportedStreamBits(v).text()
            == "only 16-bit PCM is supported for streaming, got "@ + decimal(v as nat) + " bits"@,
{
}

impl WavError {
    /// The message for the error.
    pub open spec fn text(self) -> Seq<char> {
        match self {
            WavError::NotWav => "not a valid RIFF/WAV file"@,
            WavError::FmtTooSmall => "fmt chunk too small"@,
            WavError::MissingFmt => "missing fmt chunk in WAV file"@,
            WavError::MissingData => "missing data chunk in WAV file"@,
            WavError::UnsupportedFormat(f) => "only PCM WAV (format 1) is supported, got format "@
                + decimal(f as nat),
            WavError::UnsupportedBits(b) => "only 16-bit PCM is supported, got "@ + decimal(
                b as nat,
            ) + " bits"@,
            WavError::UnsupportedStreamBits(b) =>
            "only 16-bit PCM is supported for streaming, got "@ + decimal(b as nat) + " bits"@,
        }
    }

    /// The message for the error.
    pub fn message(&self) -> (r: String)
        ensures
            r@ == self.text(),
    {
        match self {
            WavError::NotWav => "not a valid RIFF/WAV file".to_owned(),
            WavError::FmtTooSmall => "fmt chunk too small".to_owned(),
            WavError::MissingFmt => "missing fmt chunk in WAV file".to_owned(),
            WavError::MissingData => "missing data chunk in WAV file".to_owned(),
            WavError::UnsupportedFormat(f) => {
                let mut s: String = "only PCM WAV (format 1) is supported, got format ".to_owned();
                push_decimal(&mut s, *f);
                s
            },
            WavError::UnsupportedBits(b) => {
                let mut s: String = "only 16-bit PCM is supported, got ".to_owned();
                push_decimal(&mut s, *b);
                s.append(" bits");
                s
            },
            WavError::UnsupportedStreamBits(b) => {
                let mut s: String = "only 16-bit PCM is supported for streaming, got ".to_owned();
                push_decimal(&mut s, *b);
                s.append(" bits");
                s
            },
        }
    }
}

/// Append `n` in decimal digits.
fn push_decimal(s: &mut String, n: u16)
    ensures
        final(s)@ == old(s)@ + decimal(n as nat),
    decreases n,
{
    let ghost before = s@;
    if n >= 10 {
        push_decimal(s, n / 10);
    }
    let digit: u8 = 0x30 + (n % 10) as u8;
    s.push(digit as char);
    assert(s@ == before + decimal(n as nat));
}

// ---------------------------------------------------------------------------
// The chunk list
// ---------------------------------------------------------------------------

/// A chunk of a RIFF file: its identifier, and where its body lies.
pub struct RiffChunk {
    pub id: Seq<u8>,
    pub start: int,
    pub len: int,
}

/// `RIFF`
pub open spec fn riff_id() -> Seq<u8> {
    seq![0x52, 0x49, 0x46, 0x46]
}

/// `WAVE`
pub open spec fn wave_id() -> Seq<u8> {
    seq![0x57, 0x41, 0x56, 0x45]
}

/// `fmt `
pub open spec fn fmt_id() -> Seq<u8> {
    seq![0x66, 0x6d, 0x74, 0x20]
}

/// `data`
pub open spec fn data_id() -> Seq<u8> {
    seq![0x64, 0x61, 0x74, 0x61]
}

/// The file is long enough for a canonical header and has the RIFF/WAVE signature.
pub open spec fn is_wav(data: Seq<u8>) -> bool {
    &&& data.len() >= 44
    &&& data.subrange(0, 4) == riff_id()
    &&& data.subrange(8, 12) == wave_id()
}

/// A chunk header lies at `pos`, and the body that it announces lies in the file.
pub open spec fn chunk_fits(data: Seq<u8>, pos: int) -> bool {
    &&& 0 <= pos
    &&& pos + 8 <= data.len()
    &&& pos + 8 + pcm::le_u32(data, pos + 4) <= data.len()
}

/// The chunk whose header lies at `pos`.
pub open spec fn chunk_at(data: Seq<u8>, pos: int) -> RiffChunk {
    RiffChunk { id: data.subrange(pos, pos + 4), start: pos + 8, len: pcm::le_u32(data, pos + 4) }
}

impl RiffChunk {
    /// Where the next chunk header lies: bodies are padded to an even number of
    /// bytes.
    pub open spec fn next(self) -> int {
        self.start + self.len + self.len % 2
    }
}

/// The chunks from `pos` on, up to the first that does not lie in the file.
pub open spec fn riff_chunks(data: Seq<u8>, pos: int) -> Seq<RiffChunk>
    decreases data.len() + 1 - pos,
{
    if chunk_fits(data, pos) {
        let chunk = chunk_at(data, pos);
        seq![chunk] + riff_chunks(data, chunk.next())
    } else {
        seq![]
    }
}

/// The chunks of a WAV file.
pub open spec fn wav_chunks(data: Seq<u8>) -> Seq<RiffChunk> {
    riff_chunks(data, 12)
}

/// The last chunk with the identifier `id`.
pub open spec fn last_chunk(chunks: Seq<RiffChunk>, id: Seq<u8>) -> Option<RiffChunk>
    decreases chunks.len(),
{
    if chunks.len() == 0 {
        None
    } else if chunks.last().id == id {
        Some(chunks.last())
    } else {
        last_chunk(chunks.drop_last(), id)
    }
}

/// A `fmt ` chunk that is too short to hold a format.
pub open spec fn is_short_fmt(chunk: RiffChunk) -> bool {
    chunk.id == fmt_id() && chunk.len < 16
}

/// Some `fmt ` chunk is too short to hold a format.
pub open spec fn has_short_fmt(chunks: Seq<RiffChunk>) -> bool {
    exists|i: int| 0 <= i < chunks.len() && is_short_fmt(#[trigger] chunks[i])
}

/// What a `fmt ` chunk says.
#[derive(Debug, Clone, Copy, PartialEq, Eq, Structural)]
pub struct WavFormat {
    pub format: u16,
    pub channels: u16,
    pub sample_rate: u32,
    pub bits_per_sample: u16,
}

/// The format that the body of a `fmt ` chunk at `start` holds.
pub open spec fn format_at(data: Seq<u8>, start: int) -> WavFormat {
    WavFormat {
        format: pcm::le_u16(data, start) as u16,
        channels: pcm::le_u16(data, start + 2) as u16,
        sample_rate: pcm::le_u32(data, start + 4) as u32,
        bits_per_sample: pcm::le_u16(data, start + 14) as u16,
    }
}

/// The format of a WAV file: that of its last `fmt ` chunk.
pub open spec fn wav_format(data: Seq<u8>) -> Result<WavFormat, WavError> {
    let chunks = wav_chunks(data);
    if !is_wav(data) {
        Err(WavError::NotWav)
    } else if has_short_fmt(chunks) {
        Err(WavError::FmtTooSmall)
    } else {
        match last_chunk(chunks, fmt_id()) {
            None => Err(WavError::MissingFmt),
            Some(chunk) => Ok(format_at(data, chunk.start)),
        }
    }
}

/// The body of the last `data` chunk.
pub open spec fn wav_data(data: Seq<u8>) -> Option<RiffChunk> {
    last_chunk(wav_chunks(data), data_id())
}

// ---------------------------------------------------------------------------
// The header
// ---------------------------------------------------------------------------

/// A WAV file's sample rate, sample layout, and where its PCM data lies.
#[derive(Debug, Clone, Copy, PartialEq, Eq, Structural)]
pub struct WavInfo {
    pub sample_rate: u32,
    pub channels: u16,
    pub bits_per_sample: u16,
    pub data_offset: usize,
    pub data_len: usize,
}

/// The header of a WAV file. Without a `data` chunk the data is empty, at
/// offset 0.
pub open spec fn wav_header(data: Seq<u8>) -> Result<WavInfo, WavError> {
    match wav_format(data) {
        Err(e) => Err(e),
        Ok(f) => if f.format != 1 {
            Err(WavError::UnsupportedFormat(f.format))
        } else {
            Ok(
                WavInfo {
                    sample_rate: f.sample_rate,
                    channels: f.channels,
                    bits_per_sample: f.bits_per_sample,
                    data_offset: match wav_data(data) {
                        None => 0,
                        Some(chunk) => chunk.start as usize,
                    },
                    data_len: match wav_data(data) {
                        None => 0,
                        Some(chunk) => chunk.len as usize,
                    },
                },
            )
        },
    }
}

/// Every chunk that is found from `pos` on lies in the file.
pub proof fn chunks_lie_in_file(data: Seq<u8>, pos: int)
    requires
        0 <= pos,
    ensures
        forall|i: int|
            0 <= i < riff_chunks(data, pos).len() ==> {
                let c = #[trigger] riff_chunks(data, pos)[i];
                &&& pos + 8 <= c.start
                &&& 0 <= c.len
                &&& c.start + c.len <= data.len()
            },
    decreases data.len() + 1 - pos,
{
    if chunk_fits(data, pos) {
        let chunk = chunk_at(data, pos);
        let rest = riff_chunks(data, chunk.next());
        chunks_lie_in_file(data, chunk.next());
        assert forall|i: int| 0 <= i < riff_chunks(data, pos).len() implies {
            let c = #[trigger] riff_chunks(data, pos)[i];
            &&& pos + 8 <= c.start
            &&& 0 <= c.len
            &&& c.start + c.len <= data.len()
        } by {
            if i > 0 {
                assert(riff_chunks(data, pos)[i] == rest[i - 1]);
            }
        }
    }
}

/// The last chunk with an identifier is a chunk of the list with that
/// identifier, and none with it follows.
pub proof fn last_chunk_is_a_chunk(chunks: Seq<RiffChunk>, id: Seq<u8>)
    ensures
        match last_chunk(chunks, id) {
            None => forall|i: int| 0 <= i < chunks.len() ==> (#[trigger] chunks[i]).id != id,
            Some(c) => exists|i: int|
                0 <= i < chunks.len() && c == #[trigger] chunks[i] && c.id == id && forall|j: int|
                    i < j < chunks.len() ==> (#[trigger] chunks[j]).id != id,
        },
    decreases chunks.len(),
{
    if chunks.len() > 0 {
        if chunks.last().id == id {
            assert(chunks[chunks.len() - 1] == chunks.last());
        } else {
            let init = chunks.drop_last();
            last_chunk_is_a_chunk(init, id);
            match last_chunk(init, id) {
                None => {
                    assert forall|i: int| 0 <= i < chunks.len() implies (#[trigger] chunks[i]).id
                        != id by {
                        if i < init.len() {
                            assert(chunks[i] == init[i]);
                        }
                    }
                },
                Some(c) => {
                    let i = choose|i: int|
                        0 <= i < init.len() && c == #[trigger] init[i] && c.id == id && forall|j: int|
                            i < j < init.len() ==> (#[trigger] init[j]).id != id;
                    assert(c == chunks[i]);
                    assert forall|j: int| i < j < chunks.len() implies (#[trigger] chunks[j]).id
                        != id by {
                        if j < init.len() {
                            assert(chunks[j] == init[j]);
                        }
                    }
                },
            }
        }
    }
}

/// The data of a WAV file lies in the file, behind the RIFF signature and its
/// chunk header.
pub proof fn wav_data_lies_in_file(data: Seq<u8>)
    ensures
        wav_data(data) matches Some(chunk) ==> {
            &&& 20 <= chunk.start
            &&& 0 <= chunk.len
            &&& chunk.start + chunk.len <= data.len()
        },
{
    chunks_lie_in_file(data, 12);
    last_chunk_is_a_chunk(wav_chunks(data), data_id());
}

/// What the chunk list of a WAV file holds.
struct Scan {
    fmt: Option<WavFormat>,
    data: Option<(usize, usize)>,
}

/// Whether the four bytes at `i` are `a`, `b`, `c` and `d`.
fn has_id(data: &[u8], i: usize, a: u8, b: u8, c: u8, d: u8) -> (r: bool)
    requires
        i + 4 <= data@.len(),
    ensures
        r == (data@.subrange(i as int, i + 4) == seq![a, b, c, d]),
{
    let ghost id = data@.subrange(i as int, i + 4);
    assert(id[0] == data@[i as int]);
    assert(id[1] == data@[i + 1]);
    assert(id[2] == data@[i + 2]);
    assert(id[3] == data@[i + 3]);
    let r: bool = data[i] == a && data[i + 1] == b && data[i + 2] == c && data[i + 3] == d;
    assert(r ==> id == seq![a, b, c, d]);
    assert(!r ==> id != seq![a, b, c, d]) by {
        let s = seq![a, b, c, d];
        assert(s[0] == a && s[1] == b && s[2] == c && s[3] == d);
    }
    r
}

/// The format and the data range that a scan has found, as the chunks say.
spec fn scan_of(data: Seq<u8>, chunks: Seq<RiffChunk>, scan: Scan) -> bool {
    &&& match last_chunk(chunks, fmt_id()) {
        None => scan.fmt is None,
        Some(c) => scan.fmt == Some(format_at(data, c.start)),
    }
    &&& match last_chunk(chunks, data_id()) {
        None => scan.data is None,
        Some(c) => scan.data matches Some(range) && range.0 == c.start && range.1 == c.len,
    }
}

/// Scan for the `fmt ` and `data` chunks. They usually appear in this order at
/// the start, but some encoders insert extras (e.g. `LIST`).
fn scan_chunks(data: &[u8]) -> (r: Result<Scan, WavError>)
    ensures
        match r {
            Ok(scan) => {
                &&& is_wav(data@)
                &&& !has_short_fmt(wav_chunks(data@))
                &&& scan_of(data@, wav_chunks(data@), scan)
            },
            Err(e) => wav_format(data@) == Err::<WavFormat, WavError>(e) && (e == WavError::NotWav
                || e == WavError::FmtTooSmall),
        },
{
    if data.len() < 44 || !has_id(data, 0, 0x52, 0x49, 0x46, 0x46) || !has_id(
        data,
        8,
        0x57,
        0x41,
        0x56,
        0x45,
    ) {
        return Err(WavError::NotWav);
    }
    let mut scan: Scan = Scan { fmt: None, data: None };
    let mut pos: usize = 12;
    let ghost all = wav_chunks(data@);
    let ghost mut seen = Seq::<RiffChunk>::empty();
    assert(seen + riff_chunks(data@, 12) == all);
    while data.len() - pos >= 8 && read_u32(data, pos + 4) as usize <= data.len() - pos - 8
        invariant
            is_wav(data@),
            all == wav_chunks(data@),
            12 <= pos <= data@.len(),
            seen + riff_chunks(data@, pos as int) == all,
            scan_of(data@, seen, scan),
            !has_short_fmt(seen),
        decreases data@.len() - pos,
    {
        let size: usize = read_u32(data, pos + 4) as usize;
        let start: usize = pos + 8;
        let end: usize = start + size;
        let ghost chunk = chunk_at(data@, pos as int);
        let ghost now = seen.push(chunk);
        assert(chunk_fits(data@, pos as int));
        assert(now + riff_chunks(data@, chunk.next()) == all);
        assert(now.drop_last() == seen);
        if has_id(data, pos, 0x66, 0x6d, 0x74, 0x20) {
            if size < 16 {
                assert(all[seen.len() as int] == chunk);
                assert(is_short_fmt(all[seen.len() as int]));
                return Err(WavError::FmtTooSmall);
            }
            assert(chunk.id[0] == 0x66);
            assert(data_id()[0] == 0x64);
            scan.fmt = Some(
                WavFormat {
                    format: read_u16(data, start),
                    channels: read_u16(data, start + 2),
                    sample_rate: read_u32(data, start + 4),
                    bits_per_sample: read_u16(data, start + 14),
                },
            );
        } else if has_id(data, pos, 0x64, 0x61, 0x74, 0x61) {
            scan.data = Some((start, size));
        }
        // Chunks are padded to an even number of bytes.
        pos = if size % 2 == 1 && end < data.len() {
            end + 1
        } else {
            end
        };
        proof {
            seen = now;
            assert(riff_chunks(data@, chunk.next()) == riff_chunks(data@, pos as int));
        }
    }
    assert(riff_chunks(data@, pos as int) == Seq::<RiffChunk>::empty());
    assert(seen == all);
    Ok(scan)
}

/// Read a WAV file's header to extract sample rate and data offset/length
/// without loading the full PCM into memory. Useful for streaming reads.
pub fn read_wav_header(data: &[u8]) -> (r: Result<WavInfo, WavError>)
    ensures
        r == wav_header(data@),
        r matches Ok(info) ==> info.data_offset + info.data_len <= data@.len(),
{
    let scan: Scan = match scan_chunks(data) {
        Ok(scan) => scan,
        Err(e) => {
            return Err(e);
        },
    };
    proof {
        wav_data_lies_in_file(data@);
    }
    let fmt: WavFormat = match scan.fmt {
        None => {
            return Err(WavError::MissingFmt);
        },
        Some(fmt) => fmt,
    };
    if fmt.format != 1 {
        return Err(WavError::UnsupportedFormat(fmt.format));
    }
    let range: (usize, usize) = match scan.data {
        None => (0, 0),
        Some(range) => range,
    };
    Ok(
        WavInfo {
            sample_rate: fmt.sample_rate,
            channels: fmt.channels,
            bits_per_sample: fmt.bits_per_sample,
            data_offset: range.0,
            data_len: range.1,
        },
    )
}

// ---------------------------------------------------------------------------
// Loading a whole file
// ---------------------------------------------------------------------------

/// The audio of a WAV file, downmixed to mono. The amplitude of a sample is its
/// frame sum over `32768 * channels`.
#[derive(Debug)]
pub struct WavAudio {
    pub sample_rate: u32,
    pub channels: u16,
    pub sums: Vec<i32>,
}

/// The contents of a `WavAudio`.
pub struct MonoAudio {
    pub sample_rate: u32,
    pub channels: u16,
    pub sums: Seq<i32>,
}

impl View for WavAudio {
    type V = MonoAudio;

    open spec fn view(&self) -> MonoAudio {
        MonoAudio { sample_rate: self.sample_rate, channels: self.channels, sums: self.sums@ }
    }
}

/// The body of a chunk.
pub open spec fn body(data: Seq<u8>, chunk: RiffChunk) -> Seq<u8> {
    data.subrange(chunk.start, chunk.start + chunk.len)
}

/// The audio of a WAV file with 16-bit PCM data.
pub open spec fn wav_audio(data: Seq<u8>) -> Result<MonoAudio, WavError> {
    match wav_format(data) {
        Err(e) => Err(e),
        Ok(f) => match wav_data(data) {
            None => Err(WavError::MissingData),
            Some(chunk) => if f.format != 1 {
                Err(WavError::UnsupportedFormat(f.format))
            } else if f.bits_per_sample != 16 {
                Err(WavError::UnsupportedBits(f.bits_per_sample))
            } else {
                Ok(
                    MonoAudio {
                        sample_rate: f.sample_rate,
                        channels: f.channels,
                        sums: pcm::mono(body(data, chunk), f.channels as int),
                    },
                )
            },
        },
    }
}

/// Load a 16-bit PCM WAV file, downmixed to mono, with the sample rate so that
/// the caller can resample if needed. A file that announces no channels has no
/// frames to downmix.
pub fn load_wav(data: &[u8]) -> (r: Result<WavAudio, WavError>)
    requires
        wav_audio(data@) matches Ok(audio) ==> audio.channels > 0,
    ensures
        match r {
            Ok(audio) => wav_audio(data@) == Ok::<MonoAudio, WavError>(audio@),
            Err(e) => wav_audio(data@) == Err::<MonoAudio, WavError>(e),
        },
        r matches Ok(loaded) ==> wav_audio(data@) matches Ok(audio) && {
            &&& loaded.sample_rate == audio.sample_rate
            &&& loaded.channels == audio.channels
            &&& loaded.sums@ == audio.sums
        },
{
    let scan: Scan = match scan_chunks(data) {
        Ok(scan) => scan,
        Err(e) => {
            return Err(e);
        },
    };
    proof {
        wav_data_lies_in_file(data@);
    }
    let fmt: WavFormat = match scan.fmt {
        None => {
            return Err(WavError::MissingFmt);
        },
        Some(fmt) => fmt,
    };
    let range: (usize, usize) = match scan.data {
        None => {
            return Err(WavError::MissingData);
        },
        Some(range) => range,
    };
    if fmt.format != 1 {
        return Err(WavError::UnsupportedFormat(fmt.format));
    }
    if fmt.bits_per_sample != 16 {
        return Err(WavError::UnsupportedBits(fmt.bits_per_sample));
    }
    assert(data@.len() == data.len());
    let bytes: &[u8] = vstd::slice::slice_subrange(data, range.0, range.0 + range.1);
    let sums: Vec<i32> = pcm::pcm_to_mono(bytes, fmt.channels, 16);
    Ok(WavAudio { sample_rate: fmt.sample_rate, channels: fmt.channels, sums })
}

// ---------------------------------------------------------------------------
// Streaming a file
// ---------------------------------------------------------------------------

/// The mono batches of a WAV file, in the order in which they are pushed into a
/// transcriber. The amplitude of a sample is its frame sum over
/// `32768 * channels`.
#[derive(Debug)]
pub struct WavStream {
    pub channels: u16,
    pub batches: Vec<Vec<i32>>,
}

/// The contents of a `WavStream`.
pub struct MonoBatches {
    pub channels: u16,
    pub batches: Seq<Seq<i32>>,
}

impl View for WavStream {
    type V = MonoBatches;

    open spec fn view(&self) -> MonoBatches {
        MonoBatches {
            channels: self.channels,
            batches: self.batches@.map_values(|batch: Vec<i32>| batch@),
        }
    }
}

/// The PCM data that a header announces.
pub open spec fn pcm_data(data: Seq<u8>, info: WavInfo) -> Seq<u8> {
    data.subrange(info.data_offset as int, info.data_offset + info.data_len)
}

/// The batches of a WAV file with 16-bit PCM data.
pub open spec fn wav_batches(data: Seq<u8>) -> Result<MonoBatches, WavError> {
    match wav_header(data) {
        Err(e) => Err(e),
        Ok(info) => if info.bits_per_sample != 16 {
            Err(WavError::UnsupportedStreamBits(info.bits_per_sample))
        } else {
            Ok(
                MonoBatches {
                    channels: info.channels,
                    batches: pcm::batches(pcm_data(data, info), info.channels as int),
                },
            )
        },
    }
}

/// Read the header of a WAV file, then cut its data section into the batches of
/// whole frames that a streaming transcription pushes one after the other.
pub fn read_wav_batches(data: &[u8]) -> (r: Result<WavStream, WavError>)
    requires
        wav_batches(data@) matches Ok(stream) ==> stream.channels > 0,
    ensures
        match r {
            Ok(stream) => wav_batches(data@) == Ok::<MonoBatches, WavError>(stream@),
            Err(e) => wav_batches(data@) == Err::<MonoBatches, WavError>(e),
        },
        r matches Ok(cut) ==> wav_batches(data@) matches Ok(stream) && {
            &&& cut.channels == stream.channels
            &&& cut.batches@.map_values(|batch: Vec<i32>| batch@) == stream.batches
        },
{
    let info: WavInfo = match read_wav_header(data) {
        Ok(info) => info,
        Err(e) => {
            return Err(e);
        },
    };
    if info.bits_per_sample != 16 {
        return Err(WavError::UnsupportedStreamBits(info.bits_per_sample));
    }
    assert(data@.len() == data.len());
    let bytes: &[u8] = vstd::slice::slice_subrange(
        data,
        info.data_offset,
        info.data_offset + info.data_len,
    );
    let batches: Vec<Vec<i32>> = pcm::pcm_batches(bytes, info.channels);
    Ok(WavStream { channels: info.channels, batches })
}

/// The header of a file that can be loaded says where its audio comes from.
pub proof fn header_agrees_with_audio(data: Seq<u8>)
    requires
        data.len() <= usize::MAX,
        wav_audio(data) is Ok,
    ensures
        wav_audio(data) matches Ok(audio) && wav_header(data) matches Ok(info) && {
            &&& info.sample_rate == audio.sample_rate
            &&& info.channels == audio.channels
            &&& info.bits_per_sample == 16
            &&& audio.sums == pcm::mono(pcm_data(data, info), info.channels as int)
        },
{
    wav_data_lies_in_file(data);
    let info = wav_header(data)->Ok_0;
    let chunk = wav_data(data)->Some_0;
    assert(pcm_data(data, info) == body(data, chunk));
}

/// Streaming a file hands out, in order, the samples that loading it gives, up
/// to an incomplete last frame. (A frame must fit in a batch.)
pub proof fn streaming_gives_the_loaded_samples(data: Seq<u8>)
    requires
        data.len() <= usize::MAX,
        wav_audio(data) matches Ok(audio) && 0 < pcm::frame_bytes(audio.channels as int)
            <= pcm::BATCH_BYTES,
    ensures
        wav_audio(data) matches Ok(audio) && wav_batches(data) matches Ok(stream) && wav_header(
            data,
        ) matches Ok(info) && {
            &&& stream.channels == audio.channels
            &&& stream.batches.flatten() == audio.sums.take(
                info.data_len as int / pcm::frame_bytes(audio.channels as int),
            )
        },
{
    header_agrees_with_audio(data);
    wav_data_lies_in_file(data);
    let info = wav_header(data)->Ok_0;
    assert(pcm_data(data, info).len() == info.data_len);
    pcm::batches_are_the_whole_frames(pcm_data(data, info), info.channels as int);
}

} // verus!
