//! WAV files: one channel of 16-bit PCM.

use crate::error::ApiError;
use crate::frame;
use crate::media::MONO;
use crate::pcm;
use crate::sample;
use crate::sample::Sample;
use vstd::prelude::*;

verus! {

/// A writer of [`hound`] for a WAV file that grows in a vector.
#[verifier::external_body]
pub struct WavOutput<'a> {
    writer: hound::WavWriter<std::io::Cursor<&'a mut Vec<u8>>>,
}

/// The error of [`hound`], carried to where its text is taken.
#[verifier::external_type_specification]
#[verifier::external_body]
pub struct ExHoundError(hound::Error);

/// The sample rate that a WAV file was begun with.
pub uninterp spec fn begun_rate(output: WavOutput<'_>) -> u32;

/// The amplitudes that a WAV file was given so far.
pub uninterp spec fn given(output: WavOutput<'_>) -> Seq<int>;

/// What the vector under a WAV file holds when the writer is gone.
pub uninterp spec fn left_behind(output: WavOutput<'_>) -> Seq<u8>;

/// Whether `hound::WavWriter::new` begins a file of this sample rate, number of
/// channels and number of bits in a vector.
pub uninterp spec fn begins(sample_rate: u32, channels: u16, bits: u16) -> bool;

/// Whether `hound::WavWriter::write_sample` takes an amplitude after others.
pub uninterp spec fn takes(sample_rate: u32, before: Seq<int>, amplitude: int) -> bool;

/// Whether `hound::WavWriter::finalize` completes the file of these amplitudes.
pub uninterp spec fn completes(sample_rate: u32, amplitudes: Seq<int>) -> bool;

/// The number of bits of an amplitude.
pub const BITS: u16 = 16;

/// The four bytes of an unsigned integer, the lowest first.
pub open spec fn le32(n: int) -> Seq<u8> {
    seq![
        (n % 0x100) as u8,
        (n / 0x100 % 0x100) as u8,
        (n / 0x1_0000 % 0x100) as u8,
        (n / 0x100_0000 % 0x100) as u8,
    ]
}

/// The header of a WAV file with `size` bytes of one channel of 16-bit PCM:
/// the RIFF chunk, the format chunk, and the head of the data chunk.
pub open spec fn header(sample_rate: int, size: int) -> Seq<u8> {
    let riff: Seq<u8> = seq![0x52, 0x49, 0x46, 0x46];
    let wave: Seq<u8> = seq![0x57, 0x41, 0x56, 0x45];
    let fmt: Seq<u8> = seq![0x66, 0x6d, 0x74, 0x20];
    let pcm_mono: Seq<u8> = seq![1, 0, 1, 0];
    let align_and_bits: Seq<u8> = seq![2, 0, 16, 0];
    let data: Seq<u8> = seq![0x64, 0x61, 0x74, 0x61];
    riff + le32(36 + size) + wave + fmt + le32(16) + pcm_mono + le32(sample_rate) + le32(
        2 * sample_rate,
    ) + align_and_bits + data + le32(size)
}

/// The WAV file of some amplitudes.
pub open spec fn file(sample_rate: int, amplitudes: Seq<int>) -> Seq<u8> {
    header(sample_rate, 2 * amplitudes.len() as int) + pcm::le_bytes(amplitudes)
}

/// A WAV file tells its byte rate and its sizes in 32 bits, and its sample
/// rate divides the former.
pub open spec fn representable(count: nat, sample_rate: u32) -> bool {
    &&& 0 < sample_rate <= 0x7fff_ffff
    &&& 2 * count + 36 <= u32::MAX
}

/// Whether a WAV file can tell its sizes and its rates.
pub fn is_representable(count: usize, sample_rate: u32) -> (r: bool)
    ensures
        r == representable(count as nat, sample_rate),
{
    0 < sample_rate && sample_rate <= 0x7fff_ffff && count as u128 * 2 + 36 <= u32::MAX as u128
}

/// Begins a WAV file in an empty vector, by `hound::WavWriter::new` over a
/// `std::io::Cursor`, for integers.
///
/// Nothing has been given to it yet, and what becomes of the vector is what
/// the writer leaves behind. `new` divides by the sample rate and doubles it,
/// in 32 bits. It fails only if the cursor does not take the header. That the
/// cursor always takes it is not claimed: only that the arguments decide.
#[verifier::external_body]
fn begin<'a>(sink: &'a mut Vec<u8>, sample_rate: u32, channels: u16, bits: u16) -> (r: Result<
    WavOutput<'a>,
    hound::Error,
>)
    requires
        old(sink)@.len() == 0,
        channels == MONO,
        bits == BITS,
        0 < sample_rate <= 0x7fff_ffff,
    ensures
        r is Ok <==> begins(sample_rate, channels, bits),
        r matches Ok(output) ==> {
            &&& begun_rate(output) == sample_rate
            &&& given(output) == Seq::<int>::empty()
            &&& left_behind(output) == final(sink)@
        },
{
    let spec = hound::WavSpec {
        channels,
        sample_rate,
        bits_per_sample: bits,
        sample_format: hound::SampleFormat::Int,
    };
    Ok(WavOutput { writer: hound::WavWriter::new(std::io::Cursor::new(sink), spec)? })
}

/// Gives one amplitude to a WAV file, by `hound::WavWriter::write_sample`.
///
/// The writer counts the bytes of data in 32 bits. It fails only if the cursor
/// does not take two bytes. That the cursor always takes them is not claimed:
/// only that the rate and what was given decide.
#[verifier::external_body]
fn give(output: &mut WavOutput<'_>, amplitude: i16) -> (r: Result<(), hound::Error>)
    requires
        2 * given(*old(output)).len() + 2 <= u32::MAX,
    ensures
        begun_rate(*final(output)) == begun_rate(*old(output)),
        left_behind(*final(output)) == left_behind(*old(output)),
        r is Ok <==> takes(begun_rate(*old(output)), given(*old(output)), amplitude as int),
        r is Ok ==> given(*final(output)) == given(*old(output)).push(amplitude as int),
{
    output.writer.write_sample(amplitude)
}

/// Completes a WAV file, by `hound::WavWriter::finalize`, which fills in the
/// sizes that were not known before.
///
/// The writer counts all bytes in 32 bits. It fails only if the cursor does not
/// seek or does not take the sizes. That the cursor always does is not claimed:
/// only that the rate and what was given decide.
#[verifier::external_body]
fn complete(output: WavOutput<'_>) -> (r: Result<(), hound::Error>)
    requires
        2 * given(output).len() + 36 <= u32::MAX,
    ensures
        r is Ok <==> completes(begun_rate(output), given(output)),
        r is Ok ==> left_behind(output) == file(begun_rate(output) as int, given(output)),
{
    output.writer.finalize()
}

/// What `hound::Error` says of itself. The text of an error that the cursor
/// gave is not fixed, so nothing is claimed of it.
#[verifier::external_body]
fn describe(e: hound::Error) -> String {
    e.to_string()
}

/// The error is that of a step, with some cause.
pub open spec fn is_failure_of(e: ApiError, step: Seq<char>) -> bool {
    exists|cause: Seq<char>| e.text() == step + cause
}

/// The error of a step that hound did not do.
fn failure(step: &str, e: hound::Error) -> (r: ApiError)
    ensures
        is_failure_of(r, step@),
{
    let cause = describe(e);
    let error = ApiError::failed(step, cause.as_str());
    assert(error.text() == step@ + cause@);
    error
}

/// Every amplitude is taken after those before it.
pub open spec fn all_taken(sample_rate: u32, amplitudes: Seq<int>) -> bool {
    forall|i: int|
        0 <= i < amplitudes.len() ==> takes(
            sample_rate,
            amplitudes.take(i),
            #[trigger] amplitudes[i],
        )
}

/// No step of the writing of a WAV file fails.
pub open spec fn written(sample_rate: u32, amplitudes: Seq<int>) -> bool {
    &&& begins(sample_rate, MONO, BITS)
    &&& all_taken(sample_rate, amplitudes)
    &&& completes(sample_rate, amplitudes)
}

/// The step at which the writing of a WAV file fails.
pub open spec fn failing_step(
    sample_rate: u32,
    amplitudes: Seq<int>,
    opening: Seq<char>,
) -> Seq<char> {
    if !begins(sample_rate, MONO, BITS) {
        opening
    } else if !all_taken(sample_rate, amplitudes) {
        "WAV write error: "@
    } else {
        "WAV finalize error: "@
    }
}

/// What writing samples as a WAV file gives: the file where no step fails,
/// else an error that names the first step that does.
pub open spec fn is_written(
    r: Result<Vec<u8>, ApiError>,
    samples: Seq<Sample>,
    sample_rate: u32,
    opening: Seq<char>,
) -> bool {
    let amplitudes = pcm::amplitudes(samples);
    match r {
        Ok(bytes) => written(sample_rate, amplitudes) && bytes@ == file(
            sample_rate as int,
            amplitudes,
        ),
        Err(e) => !written(sample_rate, amplitudes) && is_failure_of(
            e,
            failing_step(sample_rate, amplitudes, opening),
        ),
    }
}

/// Writes samples as a WAV file of one channel of 16-bit PCM.
///
/// `opening` is the step that is named if the file cannot be begun.
pub fn write_wav(samples: &[Sample], sample_rate: u32, opening: &str) -> (r: Result<
    Vec<u8>,
    ApiError,
>)
    requires
        representable(samples@.len(), sample_rate),
    ensures
        is_written(r, samples@, sample_rate, opening@),
{
    let mut bytes: Vec<u8> = Vec::new();
    let mut output = match begin(&mut bytes, sample_rate, MONO, BITS) {
        Ok(output) => output,
        Err(e) => {
            return Err(failure(opening, e));
        },
    };
    let ghost left = left_behind(output);
    let ghost all = pcm::amplitudes(samples@);
    for i in 0..samples.len()
        invariant
            representable(samples@.len(), sample_rate),
            all == pcm::amplitudes(samples@),
            left_behind(output) == left,
            begins(sample_rate, MONO, BITS),
            forall|j: int|
                0 <= j < i ==> takes(sample_rate, all.take(j), #[trigger] all[j]),
            begun_rate(output) == sample_rate,
            given(output) =~= all.take(i as int),
    {
        assert(all[i as int] == sample::quantized(samples@[i as int]));
        match give(&mut output, sample::quantize(samples[i])) {
            Ok(_) => {},
            Err(e) => {
                return Err(failure("WAV write error: ", e));
            },
        }
    }
    assert(all.take(samples@.len() as int) =~= all);
    match complete(output) {
        Ok(_) => Ok(bytes),
        Err(e) => Err(failure("WAV finalize error: ", e)),
    }
}

/// The unsigned integer at a place of a file.
pub open spec fn u32_at(bytes: Seq<u8>, at: int) -> int {
    frame::u32_of_bytes(bytes[at], bytes[at + 1], bytes[at + 2], bytes[at + 3])
}

/// The four bytes of an unsigned integer stand for it.
proof fn lemma_le32(n: int)
    requires
        0 <= n <= u32::MAX,
    ensures
        u32_at(le32(n), 0) == n,
        le32(n).len() == 4,
{
    let b = le32(n);
    let q = n / 0x100;
    let r = q / 0x100;
    assert(n / 0x1_0000 == r);
    assert(n / 0x100_0000 == r / 0x100);
    assert(r / 0x100 < 0x100);
}

/// A WAV file tells its own sizes and its sample rate, and its amplitudes can
/// be read from it.
pub proof fn law_wav_reads_back(sample_rate: u32, amplitudes: Seq<int>, i: int)
    requires
        representable(amplitudes.len(), sample_rate),
        0 <= i < amplitudes.len() ==> -0x8000 <= amplitudes[i] < 0x8000,
    ensures
        ({
            let bytes = file(sample_rate as int, amplitudes);
            &&& bytes.len() == 44 + 2 * amplitudes.len()
            &&& u32_at(bytes, 4) == bytes.len() - 8
            &&& u32_at(bytes, 24) == sample_rate
            &&& u32_at(bytes, 28) == 2 * sample_rate
            &&& u32_at(bytes, 40) == 2 * amplitudes.len()
            &&& 0 <= i < amplitudes.len() ==> pcm::of_bytes(bytes[44 + 2 * i], bytes[45 + 2 * i])
                == amplitudes[i]
        }),
{
    let size = 2 * amplitudes.len() as int;
    let bytes = file(sample_rate as int, amplitudes);
    lemma_le32(36 + size);
    lemma_le32(16);
    lemma_le32(sample_rate as int);
    lemma_le32(2 * sample_rate);
    lemma_le32(size);
    let data = pcm::le_bytes(amplitudes);
    assert(bytes.subrange(4, 8) =~= le32(36 + size));
    assert(bytes.subrange(24, 28) =~= le32(sample_rate as int));
    assert(bytes.subrange(28, 32) =~= le32(2 * sample_rate));
    assert(bytes.subrange(40, 44) =~= le32(size));
    lemma_word_within(bytes, 4);
    lemma_word_within(bytes, 24);
    lemma_word_within(bytes, 28);
    lemma_word_within(bytes, 40);
    if 0 <= i < amplitudes.len() {
        assert(bytes[44 + 2 * i] == data[2 * i]);
        assert(bytes[45 + 2 * i] == data[2 * i + 1]);
        assert((2 * i) / 2 == i && (2 * i + 1) / 2 == i);
        pcm::law_bytes_read_back(amplitudes[i]);
    }
}

/// A word of a file is the word at the start of its four bytes.
proof fn lemma_word_within(bytes: Seq<u8>, at: int)
    requires
        0 <= at,
        at + 4 <= bytes.len(),
    ensures
        u32_at(bytes, at) == u32_at(bytes.subrange(at, at + 4), 0),
{
}

/// A WAV file says what it is: RIFF, WAVE, a format chunk of 16 bytes for PCM of
/// one channel of 16 bits, two bytes to a frame, and a data chunk.
pub proof fn law_wav_says_what_it_is(sample_rate: u32, amplitudes: Seq<int>)
    ensures
        ({
            let bytes = file(sample_rate as int, amplitudes);
            &&& bytes.len() >= 44
            &&& bytes.subrange(0, 4) == seq![0x52u8, 0x49, 0x46, 0x46]
            &&& bytes.subrange(8, 16) == seq![0x57u8, 0x41, 0x56, 0x45, 0x66, 0x6d, 0x74, 0x20]
            &&& bytes.subrange(16, 24) == seq![16u8, 0, 0, 0, 1, 0, 1, 0]
            &&& bytes.subrange(32, 36) == seq![2u8, 0, 16, 0]
            &&& bytes.subrange(36, 40) == seq![0x64u8, 0x61, 0x74, 0x61]
        }),
{
    let size = 2 * amplitudes.len() as int;
    let bytes = file(sample_rate as int, amplitudes);
    assert(le32(16) =~= seq![16u8, 0, 0, 0]);
    assert(header(sample_rate as int, size).len() == 44);
    assert(bytes.subrange(0, 4) =~= seq![0x52u8, 0x49, 0x46, 0x46]);
    assert(bytes.subrange(8, 16) =~= seq![0x57u8, 0x41, 0x56, 0x45, 0x66, 0x6d, 0x74, 0x20]);
    assert(bytes.subrange(16, 20) =~= le32(16));
    assert(bytes.subrange(16, 24) =~= bytes.subrange(16, 20) + seq![1u8, 0, 1, 0]);
    assert(bytes.subrange(16, 24) =~= seq![16u8, 0, 0, 0, 1, 0, 1, 0]);
    assert(bytes.subrange(32, 36) =~= seq![2u8, 0, 16, 0]);
    assert(bytes.subrange(36, 40) =~= seq![0x64u8, 0x61, 0x74, 0x61]);
}

/// A file can be written whenever its rates and sizes can be read back from the
/// four bytes that each of them has.
pub proof fn law_what_can_be_told(count: nat, sample_rate: u32)
    ensures
        representable(count, sample_rate) <==> sample_rate > 0 && u32_at(
            le32(2 * sample_rate),
            0,
        ) == 2 * sample_rate && u32_at(le32((36 + 2 * count) as int), 0) == 36 + 2
            * count,
{
    if 2 * sample_rate <= u32::MAX {
        lemma_le32(2 * sample_rate);
    }
    if 36 + 2 * count <= u32::MAX {
        lemma_le32((36 + 2 * count) as int);
    }
}

/// Samples are written as their file exactly if hound does every step; else the
/// text of the error starts with the name of the first step that hound did not
/// do.
pub proof fn law_writing_fails_only_with_hound(
    r: Result<Vec<u8>, ApiError>,
    samples: Seq<Sample>,
    sample_rate: u32,
    opening: Seq<char>,
)
    requires
        is_written(r, samples, sample_rate, opening),
    ensures
        ({
            let amplitudes = pcm::amplitudes(samples);
            let taken = forall|i: int|
                0 <= i < amplitudes.len() ==> takes(
                    sample_rate,
                    amplitudes.take(i),
                    #[trigger] amplitudes[i],
                );
            let step = if !begins(sample_rate, 1, 16) {
                opening
            } else if !taken {
                "WAV write error: "@
            } else {
                "WAV finalize error: "@
            };
            match r {
                Ok(bytes) => {
                    &&& begins(sample_rate, 1, 16) && taken && completes(sample_rate, amplitudes)
                    &&& bytes@ == file(sample_rate as int, amplitudes)
                },
                Err(e) => {
                    &&& !(begins(sample_rate, 1, 16) && taken && completes(sample_rate, amplitudes))
                    &&& step.len() <= e.text().len()
                    &&& e.text().take(step.len() as int) == step
                },
            }
        }),
{
    let amplitudes = pcm::amplitudes(samples);
    if let Err(e) = r {
        let step = failing_step(sample_rate, amplitudes, opening);
        let cause = choose|cause: Seq<char>| e.text() == step + cause;
        assert((step + cause).take(step.len() as int) =~= step);
    }
}

} // verus!
