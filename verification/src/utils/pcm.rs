//! 16-bit PCM: little-endian decoding and downmixing to mono.
//!
//! Samples stay integers here. The amplitude of a sample `s` is `s / 32768`, and
//! that of a mono sample with frame sum `t` over `n` channels is `t / (32768 * n)`.

use vstd::prelude::*;

verus! {

/// The unsigned 16-bit little-endian number at index `i` of `s`.
pub open spec fn le_u16(s: Seq<u8>, i: int) -> int {
    s[i] + 0x100 * s[i + 1]
}

/// The unsigned 32-bit little-endian number at index `i` of `s`.
pub open spec fn le_u32(s: Seq<u8>, i: int) -> int {
    s[i] + 0x100 * s[i + 1] + 0x1_0000 * s[i + 2] + 0x100_0000 * s[i + 3]
}

/// The signed (two's complement) 16-bit little-endian number at index `i` of `s`.
pub open spec fn le_i16(s: Seq<u8>, i: int) -> int {
    let n = le_u16(s, i);
    if n < 0x8000 {
        n
    } else {
        n - 0x1_0000
    }
}

/// The 16-bit samples in `data`; a trailing odd byte belongs to no sample.
pub open spec fn samples(data: Seq<u8>) -> Seq<i16> {
    Seq::new((data.len() / 2) as nat, |i: int| le_i16(data, 2 * i) as i16)
}

/// `s` cut into pieces of `n` items, of which the last may be shorter.
pub open spec fn pieces<T>(s: Seq<T>, n: int) -> Seq<Seq<T>>
    decreases s.len(),
{
    if s.len() == 0 || n <= 0 {
        seq![]
    } else if s.len() <= n {
        seq![s]
    } else {
        seq![s.take(n)] + pieces(s.skip(n), n)
    }
}

/// The sum of the samples in `s`.
pub open spec fn sum(s: Seq<i16>) -> int
    decreases s.len(),
{
    if s.len() == 0 {
        0
    } else {
        sum(s.drop_last()) + s.last()
    }
}

/// The sum of each frame of `channels` samples; the last frame may lack samples.
pub open spec fn frame_sums(samples: Seq<i16>, channels: int) -> Seq<i32> {
    pieces(samples, channels).map_values(|frame: Seq<i16>| sum(frame) as i32)
}

/// The mono downmix of interleaved 16-bit PCM: the sum of each frame.
pub open spec fn mono(data: Seq<u8>, channels: int) -> Seq<i32> {
    frame_sums(samples(data), channels)
}

proof fn lemma_sum_bounds(s: Seq<i16>)
    ensures
        -0x8000 * s.len() <= sum(s) <= 0x7fff * s.len(),
    decreases s.len(),
{
    if s.len() > 0 {
        lemma_sum_bounds(s.drop_last());
    }
}

proof fn lemma_pieces_step<T>(s: Seq<T>, n: int)
    requires
        n > 0,
        s.len() > 0,
    ensures
        pieces(s, n) == seq![s.take(if s.len() <= n {
            s.len() as int
        } else {
            n
        })] + pieces(s.skip(if s.len() <= n {
            s.len() as int
        } else {
            n
        }), n),
{
    if s.len() <= n {
        assert(s.take(s.len() as int) == s);
        assert(s.skip(s.len() as int).len() == 0);
        assert(pieces(s, n) == seq![s] + pieces(s.skip(s.len() as int), n));
    }
}

proof fn lemma_pieces_len<T>(s: Seq<T>, n: int)
    requires
        n > 0,
    ensures
        forall|k: int|
            0 <= k < pieces(s, n).len() ==> 0 < (#[trigger] pieces(s, n)[k]).len() <= n,
    decreases s.len(),
{
    if s.len() > n {
        lemma_pieces_len(s.skip(n), n);
        assert forall|k: int| 0 <= k < pieces(s, n).len() implies 0 < (#[trigger] pieces(
            s,
            n,
        )[k]).len() <= n by {
            if k > 0 {
                assert(pieces(s, n)[k] == pieces(s.skip(n), n)[k - 1]);
            }
        }
    }
}

/// Pieces of a sequence whose first part holds whole pieces are the pieces of
/// the two parts.
pub proof fn pieces_of_sum<T>(a: Seq<T>, b: Seq<T>, n: int)
    requires
        n > 0,
        a.len() % (n as nat) == 0,
    ensures
        pieces(a + b, n) == pieces(a, n) + pieces(b, n),
    decreases a.len(),
{
    if a.len() == 0 {
        assert(a + b == b);
        assert(pieces(a, n) + pieces(b, n) == pieces(b, n));
    } else {
        assert(a.len() >= n) by (nonlinear_arith)
            requires
                a.len() > 0,
                n > 0,
                a.len() % (n as nat) == 0,
        ;
        assert(((a.len() - n) as nat) % (n as nat) == 0) by (nonlinear_arith)
            requires
                a.len() >= n,
                n > 0,
                a.len() % (n as nat) == 0,
        ;
        lemma_pieces_step(a, n);
        assert(a.skip(n) + b == (a + b).skip(n));
        assert((a + b).take(n) == a.take(n));
        pieces_of_sum(a.skip(n), b, n);
        lemma_pieces_step(a + b, n);
        assert(pieces(a + b, n) == pieces(a, n) + pieces(b, n));
    }
}

/// Every mono sample lies within the amplitude range [-1, 1].
pub proof fn mono_is_normalized(data: Seq<u8>, channels: u16, k: int)
    requires
        channels > 0,
        0 <= k < mono(data, channels as int).len(),
    ensures
        -0x8000 * channels <= mono(data, channels as int)[k] <= 0x7fff * channels,
{
    let f = pieces(samples(data), channels as int);
    lemma_pieces_len(samples(data), channels as int);
    assert(0 < f[k].len() <= channels);
    lemma_sum_bounds(f[k]);
}

/// There is a sample for every two bytes, the lower byte first, in two's
/// complement: read without its sign, it is the number that the bytes spell.
pub proof fn samples_are_little_endian(data: Seq<u8>)
    ensures
        samples(data).len() == data.len() / 2,
        forall|i: int|
            0 <= i < samples(data).len() ==> {
                let v = #[trigger] samples(data)[i];
                data[2 * i] + 0x100 * data[2 * i + 1] == if v < 0 {
                    v + 0x1_0000
                } else {
                    v as int
                }
            },
{
}

/// Sums are arithmetic sums: nothing is cut off or wrapped, however large they
/// get.
pub proof fn sum_is_additive(a: Seq<i16>, b: Seq<i16>)
    ensures
        sum(a + b) == sum(a) + sum(b),
    decreases b.len(),
{
    if b.len() == 0 {
        assert(a + b == a);
    } else {
        assert((a + b).drop_last() == a + b.drop_last());
        sum_is_additive(a, b.drop_last());
    }
}

/// The sum of one sample is the sample, and that of none is zero.
pub proof fn sum_of_one_is_itself(x: i16)
    ensures
        sum(seq![x]) == x,
        sum(Seq::empty()) == 0,
{
    reveal_with_fuel(sum, 2);
    assert(seq![x].last() == x);
}

proof fn lemma_sum_is_fold(s: Seq<i16>)
    ensures
        sum(s) == s.fold_left(0int, |total: int, v: i16| total + v),
    decreases s.len(),
{
    if s.len() > 0 {
        lemma_sum_is_fold(s.drop_last());
    }
}

proof fn lemma_piece<T>(s: Seq<T>, n: int, k: int)
    requires
        n > 0,
        0 <= k < pieces(s, n).len(),
    ensures
        0 <= k * n < s.len(),
        k * n + n == (k + 1) * n,
        pieces(s, n)[k] == s.subrange(k * n, if k * n + n <= s.len() {
            k * n + n
        } else {
            s.len() as int
        }),
    decreases k,
{
    assert(k * n + n == (k + 1) * n) by (nonlinear_arith);
    if k == 0 {
        assert(0 * n == 0);
        if s.len() <= n {
            assert(s.subrange(0, s.len() as int) == s);
        }
    } else {
        let rest = s.skip(n);
        lemma_piece(rest, n, k - 1);
        assert(k * n == (k - 1) * n + n) by (nonlinear_arith);
        assert(pieces(s, n)[k] == pieces(rest, n)[k - 1]);
        let end = if k * n + n <= s.len() {
            k * n + n
        } else {
            s.len() as int
        };
        assert(rest.subrange((k - 1) * n, end - n) == s.subrange(k * n, end));
    }
}

proof fn lemma_piece_count<T>(s: Seq<T>, n: int)
    requires
        n > 0,
    ensures
        pieces(s, n).len() * n >= s.len(),
        s.len() > 0 ==> (pieces(s, n).len() - 1) * n < s.len(),
        s.len() == 0 ==> pieces(s, n).len() == 0,
    decreases s.len(),
{
    if s.len() > n {
        lemma_piece_count(s.skip(n), n);
        let m = pieces(s.skip(n), n).len() as int;
        assert(pieces(s, n).len() == m + 1);
        assert((m + 1) * n == m * n + n && m * n == (m - 1) * n + n) by (nonlinear_arith);
    } else if s.len() > 0 {
        assert(1 * n == n && 0 * n == 0);
    } else {
        assert(0 * n == 0);
    }
}

/// The mono downmix has one sample for each frame, and that is the arithmetic sum
/// of the frame's samples: those from `k * channels` up to the next frame, or to
/// the end of the data.
pub proof fn mono_adds_up_each_frame(data: Seq<u8>, channels: u16)
    requires
        channels > 0,
    ensures
        ({
            let n = channels as int;
            let s = samples(data);
            let m = mono(data, n);
            &&& m.len() * n >= s.len()
            &&& s.len() > 0 ==> (m.len() - 1) * n < s.len()
            &&& s.len() == 0 ==> m.len() == 0
            &&& forall|k: int|
                0 <= k < m.len() ==> #[trigger] m[k] == s.subrange(
                    k * n,
                    if (k + 1) * n <= s.len() {
                        (k + 1) * n
                    } else {
                        s.len() as int
                    },
                ).fold_left(0int, |total: int, v: i16| total + v)
        }),
{
    let n = channels as int;
    let s = samples(data);
    let m = mono(data, n);
    lemma_piece_count(s, n);
    lemma_pieces_len(s, n);
    assert forall|k: int| 0 <= k < m.len() implies #[trigger] m[k] == s.subrange(
        k * n,
        if (k + 1) * n <= s.len() {
            (k + 1) * n
        } else {
            s.len() as int
        },
    ).fold_left(0int, |total: int, v: i16| total + v) by {
        lemma_piece(s, n, k);
        let frame = pieces(s, n)[k];
        lemma_sum_bounds(frame);
        lemma_sum_is_fold(frame);
        assert(-0x8000 * 0xffff <= -0x8000 * frame.len());
    }
}

/// The mono downmix of stereo adds left and right, and that of mono changes
/// nothing.
pub proof fn mono_of_one_and_two_channels(data: Seq<u8>)
    ensures
        mono(data, 1).len() == samples(data).len(),
        forall|k: int|
            0 <= k < samples(data).len() ==> #[trigger] mono(data, 1)[k] == samples(data)[k],
        mono(data, 2).len() == (samples(data).len() + 1) / 2,
        forall|k: int|
            0 <= k < samples(data).len() / 2 ==> #[trigger] mono(data, 2)[k] == samples(data)[2 * k]
                + samples(data)[2 * k + 1],
{
    let s = samples(data);
    let add = |total: int, v: i16| total + v;
    mono_adds_up_each_frame(data, 1);
    mono_adds_up_each_frame(data, 2);
    reveal_with_fuel(Seq::fold_left, 3);
    assert forall|k: int| 0 <= k < s.len() implies #[trigger] mono(data, 1)[k] == s[k] by {
        let one = s.subrange(k, k + 1);
        assert(one.drop_last().len() == 0);
        assert(one.fold_left(0int, add) == s[k]);
    }
    assert forall|k: int| 0 <= k < s.len() / 2 implies #[trigger] mono(data, 2)[k] == s[2 * k] + s[2
        * k + 1] by {
        let two = s.subrange(2 * k, 2 * k + 2);
        assert(two.drop_last().last() == s[2 * k]);
        assert(two.last() == s[2 * k + 1]);
        assert(two.drop_last().drop_last().len() == 0);
        assert(two.fold_left(0int, add) == s[2 * k] + s[2 * k + 1]);
        assert(k * 2 == 2 * k && (k + 1) * 2 == 2 * k + 2);
    }
}

/// The two little-endian bytes of a 16-bit sample.
pub open spec fn sample_bytes(v: i16) -> Seq<u8> {
    let n = if v < 0 {
        v + 0x1_0000
    } else {
        v as int
    };
    seq![(n % 0x100) as u8, (n / 0x100) as u8]
}

/// Decoding the bytes of samples gives the samples back.
pub proof fn samples_round_trip(vs: Seq<i16>)
    ensures
        samples(vs.map_values(|v: i16| sample_bytes(v)).flatten()) == vs,
    decreases vs.len(),
{
    let f = |v: i16| sample_bytes(v);
    let bytes = vs.map_values(f).flatten();
    if vs.len() > 0 {
        let init = vs.drop_last();
        samples_round_trip(init);
        let before = init.map_values(f).flatten();
        assert(vs.map_values(f) == init.map_values(f).push(sample_bytes(vs.last())));
        init.map_values(f).lemma_flatten_push(sample_bytes(vs.last()));
        assert(bytes == before + sample_bytes(vs.last()));
        lemma_flat_len(init);
        assert(before.len() == 2 * init.len());
        assert forall|i: int| 0 <= i < vs.len() implies samples(bytes)[i] == vs[i] by {
            if i < init.len() {
                assert(samples(bytes)[i] == samples(before)[i]);
            }
        }
        assert(samples(bytes) == vs);
    } else {
        assert(samples(bytes) == vs);
    }
}

proof fn lemma_flat_len(vs: Seq<i16>)
    ensures
        vs.map_values(|v: i16| sample_bytes(v)).flatten().len() == 2 * vs.len(),
    decreases vs.len(),
{
    let f = |v: i16| sample_bytes(v);
    if vs.len() > 0 {
        lemma_flat_len(vs.drop_last());
        assert(vs.map_values(f) == vs.drop_last().map_values(f).push(sample_bytes(vs.last())));
        vs.drop_last().map_values(f).lemma_flatten_push(sample_bytes(vs.last()));
    }
}

/// The unsigned 16-bit little-endian number at index `i`.
pub(crate) fn read_u16(data: &[u8], i: usize) -> (r: u16)
    requires
        i + 2 <= data@.len(),
    ensures
        r == le_u16(data@, i as int),
{
    data[i] as u16 + 0x100 * (data[i + 1] as u16)
}

/// The unsigned 32-bit little-endian number at index `i`.
pub(crate) fn read_u32(data: &[u8], i: usize) -> (r: u32)
    requires
        i + 4 <= data@.len(),
    ensures
        r == le_u32(data@, i as int),
{
    data[i] as u32 + 0x100 * (data[i + 1] as u32) + 0x1_0000 * (data[i + 2] as u32) + 0x100_0000 * (
    data[i + 3] as u32)
}

/// The signed 16-bit little-endian number at index `i`.
fn read_i16(data: &[u8], i: usize) -> (r: i16)
    requires
        i + 2 <= data@.len(),
    ensures
        r == le_i16(data@, i as int),
{
    let n: i32 = read_u16(data, i) as i32;
    if n < 0x8000 {
        n as i16
    } else {
        (n - 0x1_0000) as i16
    }
}

/// Decode raw 16-bit signed little-endian PCM bytes. Assumes mono; if the stream
/// is multi-channel the caller must downmix separately.
pub fn load_raw_pcm(data: &[u8]) -> (r: Vec<i16>)
    ensures
        r@ == samples(data@),
{
    let mut out: Vec<i16> = Vec::new();
    let n: usize = data.len() / 2;
    let mut k: usize = 0;
    while k < n
        invariant
            n == data.len() / 2,
            k <= n,
            out@ == samples(data@).take(k as int),
        decreases n - k,
    {
        out.push(read_i16(data, 2 * k));
        k = k + 1;
    }
    assert(samples(data@).take(n as int) == samples(data@));
    out
}

/// The sum of `samples[start..end]`.
fn sum_range(samples: &Vec<i16>, start: usize, end: usize) -> (r: i32)
    requires
        start <= end <= samples@.len(),
        end - start <= u16::MAX,
    ensures
        r == sum(samples@.subrange(start as int, end as int)),
{
    let mut total: i32 = 0;
    let mut i: usize = start;
    assert(samples@.subrange(start as int, start as int).len() == 0);
    while i < end
        invariant
            start <= i <= end <= samples@.len(),
            end - start <= u16::MAX,
            total == sum(samples@.subrange(start as int, i as int)),
        decreases end - i,
    {
        let ghost now = samples@.subrange(start as int, i + 1);
        assert(now.drop_last() == samples@.subrange(start as int, i as int));
        proof {
            lemma_sum_bounds(now);
        }
        total = total + samples[i] as i32;
        i = i + 1;
    }
    total
}

/// Downmix interleaved samples to mono: the sum of each frame of `channels`
/// samples.
fn downmix(samples: &Vec<i16>, channels: u16) -> (r: Vec<i32>)
    requires
        channels > 0,
    ensures
        r@ == frame_sums(samples@, channels as int),
{
    let n: usize = channels as usize;
    let mut out: Vec<i32> = Vec::new();
    let mut start: usize = 0;
    assert(samples@.skip(0) == samples@);
    assert(out@ + frame_sums(samples@.skip(0), n as int) == frame_sums(samples@, n as int));
    while start < samples.len()
        invariant
            n == channels,
            n > 0,
            start <= samples@.len(),
            out@ + frame_sums(samples@.skip(start as int), n as int) == frame_sums(
                samples@,
                n as int,
            ),
        decreases samples@.len() - start,
    {
        let end: usize = if samples.len() - start <= n {
            samples.len()
        } else {
            start + n
        };
        let ghost rest = samples@.skip(start as int);
        let ghost before = out@;
        let total: i32 = sum_range(samples, start, end);
        out.push(total);
        proof {
            lemma_pieces_step(rest, n as int);
            assert(rest.take(end - start) == samples@.subrange(start as int, end as int));
            assert(rest.skip(end - start) == samples@.skip(end as int));
            assert(frame_sums(rest, n as int) == seq![total] + frame_sums(
                samples@.skip(end as int),
                n as int,
            ));
            assert(before.push(total) + frame_sums(samples@.skip(end as int), n as int) == before
                + frame_sums(rest, n as int));
        }
        start = end;
    }
    assert(out@ + frame_sums(samples@.skip(start as int), n as int) == out@);
    out
}

/// The mono downmix of a segment of raw PCM data, by channel count and bit
/// depth. Only 16-bit data is decoded: for any other depth the result is empty,
/// and the caller should check.
pub fn pcm_to_mono(data: &[u8], channels: u16, bits_per_sample: u16) -> (r: Vec<i32>)
    requires
        bits_per_sample == 16 ==> channels > 0,
    ensures
        r@ == if bits_per_sample == 16 {
            mono(data@, channels as int)
        } else {
            Seq::empty()
        },
{
    if bits_per_sample == 16 {
        downmix(&load_raw_pcm(data), channels)
    } else {
        Vec::new()
    }
}

/// The two neighbours between which linear resampling interpolates at source
/// position `index`: the samples there and behind it, or the last sample where
/// the audio of `len` samples has ended.
pub fn neighbours(index: usize, len: usize) -> (r: (usize, usize))
    requires
        len > 0,
    ensures
        r.0 == if index < len {
            index as int
        } else {
            len - 1
        },
        r.1 == if index + 1 < len {
            index + 1
        } else {
            len - 1
        },
{
    if index < len - 1 {
        (index, index + 1)
    } else {
        (len - 1, len - 1)
    }
}

// ---------------------------------------------------------------------------
// Reads
// ---------------------------------------------------------------------------

/// Decodes raw 16-bit PCM that arrives in reads of any length. The first byte of
/// a sample whose second byte has not arrived yet is kept for the next read.
#[derive(Debug)]
pub struct PcmReader {
    pending: Option<u8>,
}

impl View for PcmReader {
    type V = Seq<u8>;

    /// The bytes that belong to no sample yet.
    closed spec fn view(&self) -> Seq<u8> {
        match self.pending {
            Some(byte) => seq![byte],
            None => seq![],
        }
    }
}

/// What is left of `bytes` once its whole samples are decoded.
pub open spec fn leftover(bytes: Seq<u8>) -> Seq<u8> {
    if bytes.len() % 2 == 1 {
        seq![bytes.last()]
    } else {
        seq![]
    }
}

/// The samples that each of `reads` completes, for a reader that holds `pending`.
pub open spec fn decoded_reads(pending: Seq<u8>, reads: Seq<Seq<u8>>) -> Seq<Seq<i16>>
    decreases reads.len(),
{
    if reads.len() == 0 {
        seq![]
    } else {
        let bytes = pending + reads.first();
        seq![samples(bytes)] + decoded_reads(leftover(bytes), reads.drop_first())
    }
}

proof fn lemma_decoded_reads(pending: Seq<u8>, reads: Seq<Seq<u8>>)
    requires
        pending.len() <= 1,
    ensures
        decoded_reads(pending, reads).flatten() == samples(pending + reads.flatten()),
    decreases reads.len(),
{
    let d = decoded_reads(pending, reads);
    if reads.len() == 0 {
        assert(samples(pending + reads.flatten()) == Seq::<i16>::empty());
        assert(d.flatten() == Seq::<i16>::empty());
    } else {
        let bytes = pending + reads.first();
        let rest = reads.drop_first();
        let left = leftover(bytes);
        lemma_decoded_reads(left, rest);
        assert(d.first() == samples(bytes));
        assert(d.drop_first() == decoded_reads(left, rest));
        let whole = bytes.take(bytes.len() - left.len());
        assert(whole + left == bytes);
        assert(samples(whole) == samples(bytes));
        samples_of_sum(whole, left + rest.flatten());
        assert(whole + (left + rest.flatten()) == pending + reads.flatten());
    }
}

/// However raw PCM is cut into reads, the samples that the reads complete are, in
/// order, the samples of all bytes.
pub proof fn reads_decode_all_bytes(reads: Seq<Seq<u8>>)
    ensures
        decoded_reads(Seq::empty(), reads).flatten() == samples(reads.flatten()),
{
    lemma_decoded_reads(Seq::empty(), reads);
    assert(Seq::<u8>::empty() + reads.flatten() == reads.flatten());
}

/// The samples that a read completes and the bytes that are left make up all
/// bytes: a byte is left exactly where the number of bytes is odd, and it is the
/// last one.
pub proof fn leftover_is_what_no_sample_took(bytes: Seq<u8>)
    ensures
        leftover(bytes) == bytes.skip(2 * samples(bytes).len() as int),
        leftover(bytes).len() == bytes.len() % 2,
{
}

impl PcmReader {
    /// A reader at the start of the data.
    pub fn new() -> (r: Self)
        ensures
            r@ == Seq::<u8>::empty(),
    {
        PcmReader { pending: None }
    }

    /// A read gave `bytes`. Returns the samples that they complete.
    pub fn on_read(&mut self, bytes: &[u8]) -> (r: Vec<i16>)
        ensures
            r@ == samples(old(self)@ + bytes@),
            final(self)@ == leftover(old(self)@ + bytes@),
    {
        let ghost held = self@;
        let mut buffer: Vec<u8> = Vec::new();
        if let Some(byte) = self.pending {
            buffer.push(byte);
        }
        assert(buffer@ == held);
        let mut i: usize = 0;
        while i < bytes.len()
            invariant
                i <= bytes@.len(),
                buffer@ == held + bytes@.take(i as int),
            decreases bytes@.len() - i,
        {
            buffer.push(bytes[i]);
            i = i + 1;
            assert(buffer@ == held + bytes@.take(i as int));
        }
        assert(bytes@.take(i as int) == bytes@);
        let out: Vec<i16> = load_raw_pcm(buffer.as_slice());
        self.pending = if buffer.len() % 2 == 1 {
            Some(buffer[buffer.len() - 1])
        } else {
            None
        };
        out
    }
}

// ---------------------------------------------------------------------------
// Batches
// ---------------------------------------------------------------------------

/// How many bytes of PCM data a streaming read takes at most at a time.
pub const BATCH_BYTES: usize = 4096;

/// The number of bytes in `channels` 16-bit samples.
pub open spec fn frame_bytes(channels: int) -> int {
    2 * channels
}

/// The largest multiple of `frame` that is at most `n`.
pub open spec fn align_down(n: int, frame: int) -> int {
    n - n % frame
}

/// The mono batches in which a streaming read hands out PCM data: the whole
/// frames of the data, as many at a time as `BATCH_BYTES` bytes hold. Where that
/// is none, there are no batches.
pub open spec fn batches(pcm: Seq<u8>, channels: int) -> Seq<Seq<i32>> {
    let frame = frame_bytes(channels);
    pieces(
        pcm.take(align_down(pcm.len() as int, frame)),
        align_down(BATCH_BYTES as int, frame),
    ).map_values(|bytes: Seq<u8>| mono(bytes, channels))
}

/// Raw PCM that is read in two parts, of which the first holds whole samples,
/// decodes as it does at once.
pub proof fn samples_of_sum(a: Seq<u8>, b: Seq<u8>)
    requires
        a.len() % 2 == 0,
    ensures
        samples(a + b) == samples(a) + samples(b),
{
    let l = samples(a + b);
    let r = samples(a) + samples(b);
    assert forall|i: int| 0 <= i < l.len() implies l[i] == r[i] by {
        if i < samples(a).len() {
            assert((a + b)[2 * i] == a[2 * i]);
            assert((a + b)[2 * i + 1] == a[2 * i + 1]);
        } else {
            let j = i - samples(a).len();
            assert(2 * i == a.len() + 2 * j);
            assert((a + b)[2 * i] == b[2 * j]);
            assert((a + b)[2 * i + 1] == b[2 * j + 1]);
        }
    }
    assert(l == r);
}

/// Downmixing two stretches of PCM data, of which the first holds whole frames,
/// gives what downmixing them together gives.
pub proof fn mono_of_sum(a: Seq<u8>, b: Seq<u8>, channels: int)
    requires
        channels > 0,
        a.len() as int % frame_bytes(channels) == 0,
    ensures
        mono(a + b, channels) == mono(a, channels) + mono(b, channels),
{
    let q = a.len() as int / frame_bytes(channels);
    vstd::arithmetic::div_mod::lemma_fundamental_div_mod(a.len() as int, frame_bytes(channels));
    assert(frame_bytes(channels) * q == 2 * (channels * q)) by (nonlinear_arith)
        requires
            frame_bytes(channels) == 2 * channels,
    ;
    assert(samples(a).len() == channels * q);
    samples_of_sum(a, b);
    vstd::arithmetic::div_mod::lemma_mod_multiples_basic(q, channels);
    assert(channels * q == q * channels) by (nonlinear_arith);
    pieces_of_sum(samples(a), samples(b), channels);
    assert(mono(a + b, channels) == mono(a, channels) + mono(b, channels));
}

proof fn lemma_pieces_count<T>(s: Seq<T>, n: int, q: int)
    requires
        n > 0,
        q >= 0,
        s.len() == q * n,
    ensures
        pieces(s, n).len() == q,
    decreases q,
{
    if q > 0 {
        assert(q * n == (q - 1) * n + n) by (nonlinear_arith);
        assert((q - 1) * n >= 0) by (nonlinear_arith)
            requires
                q > 0,
                n > 0,
        ;
        lemma_pieces_step(s, n);
        lemma_pieces_count(s.skip(n), n, q - 1);
    } else {
        assert(0 * n == 0);
    }
}

proof fn lemma_batches_flatten(pcm: Seq<u8>, step: int, channels: int)
    requires
        channels > 0,
        step > 0,
        step % frame_bytes(channels) == 0,
    ensures
        pieces(pcm, step).map_values(|bytes: Seq<u8>| mono(bytes, channels)).flatten() == mono(
            pcm,
            channels,
        ),
    decreases pcm.len(),
{
    let f = |bytes: Seq<u8>| mono(bytes, channels);
    if pcm.len() == 0 {
        assert(samples(pcm).len() == 0);
        assert(mono(pcm, channels) == Seq::<i32>::empty());
    } else if pcm.len() <= step {
        assert(pieces(pcm, step).map_values(f) == seq![mono(pcm, channels)]);
        seq![mono(pcm, channels)].lemma_flatten_one_element();
    } else {
        let head = pcm.take(step);
        let tail = pcm.skip(step);
        lemma_batches_flatten(tail, step, channels);
        let l = pieces(pcm, step).map_values(f);
        assert(l.first() == mono(head, channels));
        assert(l.drop_first() == pieces(tail, step).map_values(f));
        assert(head + tail == pcm);
        mono_of_sum(head, tail, channels);
    }
}

/// Streaming hands out, in order, exactly the mono samples that downmixing the
/// data at once gives for its whole frames. (A frame must fit in a batch.)
pub proof fn batches_are_the_whole_frames(pcm: Seq<u8>, channels: int)
    requires
        0 < frame_bytes(channels) <= BATCH_BYTES,
    ensures
        batches(pcm, channels).flatten() == mono(pcm, channels).take(
            pcm.len() as int / frame_bytes(channels),
        ),
{
    let frame = frame_bytes(channels);
    let n = pcm.len() as int;
    let q = n / frame;
    let whole = align_down(n, frame);
    let step = align_down(BATCH_BYTES as int, frame);
    vstd::arithmetic::div_mod::lemma_fundamental_div_mod(n, frame);
    vstd::arithmetic::div_mod::lemma_fundamental_div_mod(BATCH_BYTES as int, frame);
    let m = BATCH_BYTES as int / frame;
    assert(whole == frame * q && step == frame * m);
    assert(frame * q == q * frame && frame * m == m * frame) by (nonlinear_arith);
    vstd::arithmetic::div_mod::lemma_mod_multiples_basic(q, frame);
    vstd::arithmetic::div_mod::lemma_mod_multiples_basic(m, frame);
    vstd::arithmetic::div_mod::lemma_div_pos_is_pos(n, frame);
    assert(step > 0) by (nonlinear_arith)
        requires
            step == BATCH_BYTES as int - BATCH_BYTES as int % frame,
            0 < frame <= BATCH_BYTES,
    ;
    assert(0 <= whole <= n) by (nonlinear_arith)
        requires
            whole == n - n % frame,
            n >= 0,
            frame > 0,
    ;
    let head = pcm.take(whole);
    let tail = pcm.skip(whole);
    lemma_batches_flatten(head, step, channels);
    assert(head + tail == pcm);
    mono_of_sum(head, tail, channels);
    assert(whole == 2 * (q * channels)) by (nonlinear_arith)
        requires
            whole == frame * q,
            frame == 2 * channels,
    ;
    lemma_pieces_count(samples(head), channels, q);
    assert(mono(head, channels).len() == q);
    assert(mono(pcm, channels).take(q) == mono(head, channels));
}

proof fn lemma_pieces_whole<T>(s: Seq<T>, n: int, unit: int)
    requires
        n > 0,
        unit > 0,
        n % unit == 0,
        s.len() as int % unit == 0,
    ensures
        forall|k: int|
            0 <= k < pieces(s, n).len() ==> (#[trigger] pieces(s, n)[k]).len() as int % unit == 0,
    decreases s.len(),
{
    if s.len() > n {
        vstd::arithmetic::div_mod::lemma_sub_mod_noop(s.len() as int, n, unit);
        vstd::arithmetic::div_mod::lemma_small_mod(0, unit as nat);
        assert(s.skip(n).len() as int % unit == 0);
        lemma_pieces_whole(s.skip(n), n, unit);
        assert forall|k: int| 0 <= k < pieces(s, n).len() implies (#[trigger] pieces(
            s,
            n,
        )[k]).len() as int % unit == 0 by {
            if k > 0 {
                assert(pieces(s, n)[k] == pieces(s.skip(n), n)[k - 1]);
            }
        }
    }
}

/// A batch holds the frames of at most 4096 bytes, and each but the last holds as
/// many as fit. All batches together are the mono samples of the whole frames.
/// Where a frame is longer than that, there are no batches.
pub proof fn batches_hold_4096_bytes(pcm: Seq<u8>, channels: u16)
    requires
        channels > 0,
    ensures
        ({
            let b = batches(pcm, channels as int);
            let most = 4096int / (2 * channels);
            &&& channels > 2048 ==> b.len() == 0
            &&& channels <= 2048 ==> b.flatten() == mono(pcm, channels as int).take(
                pcm.len() as int / (2 * channels),
            )
            &&& forall|k: int| 0 <= k < b.len() ==> 0 < (#[trigger] b[k]).len() <= most
            &&& forall|k: int| 0 <= k < b.len() - 1 ==> (#[trigger] b[k]).len() == most
        }),
{
    let n = channels as int;
    let frame = frame_bytes(n);
    let b = batches(pcm, n);
    let most = 4096int / frame;
    let step = align_down(BATCH_BYTES as int, frame);
    if channels > 2048 {
        vstd::arithmetic::div_mod::lemma_small_mod(4096, frame as nat);
        assert(b.len() == 0);
    } else {
        batches_are_the_whole_frames(pcm, n);
        let len = pcm.len() as int;
        vstd::arithmetic::div_mod::lemma_fundamental_div_mod(len, frame);
        vstd::arithmetic::div_mod::lemma_fundamental_div_mod(4096, frame);
        vstd::arithmetic::div_mod::lemma_mod_bound(len, frame);
        vstd::arithmetic::div_mod::lemma_div_pos_is_pos(len, frame);
        vstd::arithmetic::div_mod::lemma_mod_bound(4096, frame);
        let whole = align_down(len, frame);
        assert(whole == frame * (len / frame) && step == frame * most);
        assert(frame * (len / frame) == (len / frame) * frame && frame * most == most * frame)
            by (nonlinear_arith);
        vstd::arithmetic::div_mod::lemma_mod_multiples_basic(len / frame, frame);
        vstd::arithmetic::div_mod::lemma_mod_multiples_basic(most, frame);
        assert(0 <= whole <= len) by (nonlinear_arith)
            requires
                whole == frame * (len / frame),
                len == frame * (len / frame) + len % frame,
                0 <= len % frame,
                len / frame >= 0,
                frame > 0,
        ;
        let data = pcm.take(whole);
        lemma_pieces_whole(data, step, frame);
        lemma_pieces_len(data, step);
        assert forall|k: int| 0 <= k < b.len() implies {
            &&& 0 < (#[trigger] b[k]).len() <= most
            &&& k < b.len() - 1 ==> b[k].len() == most
        } by {
            let bytes = pieces(data, step)[k];
            let q = bytes.len() as int / frame;
            vstd::arithmetic::div_mod::lemma_fundamental_div_mod(bytes.len() as int, frame);
            assert(bytes.len() == 2 * (q * n)) by (nonlinear_arith)
                requires
                    bytes.len() == frame * q,
                    frame == 2 * n,
            ;
            assert(0 < q <= most) by (nonlinear_arith)
                requires
                    frame * q == bytes.len(),
                    frame * most == step,
                    0 < bytes.len() <= step,
                    frame > 0,
            ;
            lemma_pieces_count(samples(bytes), n, q);
            assert(b[k].len() == q);
            if k < b.len() - 1 {
                lemma_piece(data, step, k);
                lemma_piece(data, step, k + 1);
                assert(bytes.len() == step);
                assert(q == most) by (nonlinear_arith)
                    requires
                        frame * q == frame * most,
                        frame > 0,
                ;
            }
        }
    }
}

/// The mono batches of 16-bit PCM data (see `batches`).
pub fn pcm_batches(pcm: &[u8], channels: u16) -> (r: Vec<Vec<i32>>)
    requires
        channels > 0,
    ensures
        r@.map_values(|batch: Vec<i32>| batch@) == batches(pcm@, channels as int),
{
    let frame: usize = 2 * (channels as usize);
    proof {
        vstd::arithmetic::div_mod::lemma_mod_decreases(pcm@.len(), frame as nat);
        vstd::arithmetic::div_mod::lemma_mod_decreases(BATCH_BYTES as nat, frame as nat);
    }
    let whole: usize = pcm.len() - pcm.len() % frame;
    let step: usize = BATCH_BYTES - BATCH_BYTES % frame;
    let mut out: Vec<Vec<i32>> = Vec::new();
    let mut offset: usize = 0;
    let ghost f = |bytes: Seq<u8>| mono(bytes, channels as int);
    let ghost v = |batch: Vec<i32>| batch@;
    let ghost data = pcm@.take(whole as int);
    let ghost all = pieces(data, step as int).map_values(f);
    assert(data.skip(0) == data);
    assert(out@.map_values(v) + all == all);
    while step > 0 && offset < whole
        invariant
            channels > 0,
            whole <= pcm@.len(),
            offset <= whole,
            f == (|bytes: Seq<u8>| mono(bytes, channels as int)),
            v == (|batch: Vec<i32>| batch@),
            data == pcm@.take(whole as int),
            all == pieces(data, step as int).map_values(f),
            out@.map_values(v) + pieces(data.skip(offset as int), step as int).map_values(f) == all,
        decreases whole - offset,
    {
        let end: usize = if whole - offset <= step {
            whole
        } else {
            offset + step
        };
        let ghost before = out@.map_values(v);
        let ghost rest = data.skip(offset as int);
        let bytes: &[u8] = vstd::slice::slice_subrange(pcm, offset, end);
        let batch: Vec<i32> = pcm_to_mono(bytes, channels, 16);
        let ghost got = batch@;
        out.push(batch);
        proof {
            lemma_pieces_step(rest, step as int);
            assert(rest.take(end - offset) == pcm@.subrange(offset as int, end as int));
            assert(rest.skip(end - offset) == data.skip(end as int));
            assert(out@.map_values(v) == before.push(got));
            let later = pieces(data.skip(end as int), step as int).map_values(f);
            assert(pieces(rest, step as int).map_values(f) == seq![got] + later);
            assert(before.push(got) + later == before + (seq![got] + later));
        }
        offset = end;
    }
    assert(out@.map_values(v) + pieces(data.skip(offset as int), step as int).map_values(f)
        == out@.map_values(v));
    out
}

} // verus!
