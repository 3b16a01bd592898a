//! Laws of whole conversions: what leaves a trace in the WAV file and what does
//! not.

use crate::convert;
use crate::convert::ConvertEvent;
use crate::convert::ConvertState;
use crate::downmix;
use crate::fidelity;
use crate::frame;
use crate::frame::DecodedFrame;
use crate::interpolate;
use crate::number;
use crate::number::Number;
use crate::pcm;
use crate::rounding::Width;
use crate::sample;
use crate::sample::Sample;
use crate::stretch;
use crate::wav;
use vstd::arithmetic::power2::*;
use vstd::prelude::*;

verus! {

/// The WAV file that a row of events leads to.
pub open spec fn converted(target_rate: u32, events: Seq<ConvertEvent>) -> Seq<u8> {
    let now = convert::run(convert::begun(target_rate), events);
    wav::file(
        target_rate as int,
        pcm::amplitudes(
            stretch::resampled(convert::decoded_in(events), now.rate(), target_rate),
        ),
    )
}

/// The rows of samples of all frames among events.
pub open spec fn rows_in(events: Seq<ConvertEvent>) -> Seq<Seq<Number>>
    decreases events.len(),
{
    if events.len() == 0 {
        seq![]
    } else {
        match events.last() {
            ConvertEvent::Frame(f) => rows_in(events.drop_last()) + f.rows(),
            _ => rows_in(events.drop_last()),
        }
    }
}

/// The decoded samples are the averages of all rows.
proof fn lemma_decoded_rows(events: Seq<ConvertEvent>)
    ensures
        convert::decoded_in(events) == rows_in(events).map_values(
            |row: Seq<Number>| Sample::of(downmix::row_average(row)),
        ),
    decreases events.len(),
{
    let each = |row: Seq<Number>| Sample::of(downmix::row_average(row));
    if events.len() > 0 {
        let before = events.drop_last();
        lemma_decoded_rows(before);
        if let ConvertEvent::Frame(f) = events.last() {
            downmix::law_mono_is_the_rows_averaged(f);
            assert((rows_in(before) + f.rows()).map_values(each) =~= rows_in(before).map_values(
                each,
            ) + f.rows().map_values(each));
        }
    }
    assert(convert::decoded_in(events) =~= rows_in(events).map_values(each));
}

/// Where the samples are cut into frames, how many frames come of a packet, and
/// which of them only come at the end, leaves no trace: the same rows of samples
/// give the same file.
pub proof fn law_cuts_leave_no_trace(
    target_rate: u32,
    first: Seq<ConvertEvent>,
    second: Seq<ConvertEvent>,
)
    requires
        convert::runs(convert::begun(target_rate), first),
        convert::runs(convert::begun(target_rate), second),
        rows_in(first) == rows_in(second),
        convert::frames_in(first).len() > 0,
        convert::frames_in(second).len() > 0,
        convert::frames_in(first)[0].rate == convert::frames_in(second)[0].rate,
    ensures
        convert::decoded_in(first) == convert::decoded_in(second),
        converted(target_rate, first) == converted(target_rate, second),
{
    lemma_decoded_rows(first);
    lemma_decoded_rows(second);
    convert::law_first_frame_sets_rate(target_rate, first);
    convert::law_first_frame_sets_rate(target_rate, second);
}

/// An event, as if the audio stream were the first.
pub open spec fn renumbered(event: ConvertEvent) -> ConvertEvent {
    match event {
        ConvertEvent::StreamFound { index } => ConvertEvent::StreamFound { index: 0 },
        ConvertEvent::Packet { stream } => ConvertEvent::Packet { stream: 0 },
        _ => event,
    }
}

/// The events, as if the audio stream were the only one: without the packets of
/// other streams.
pub open spec fn own_events(state: ConvertState, events: Seq<ConvertEvent>) -> Seq<ConvertEvent>
    decreases events.len(),
{
    if events.len() == 0 {
        seq![]
    } else {
        let own = own_events(state, events.drop_last());
        match events.last() {
            ConvertEvent::Packet { stream } if stream != convert::run(
                state,
                events.drop_last(),
            ).stream => own,
            _ => own.push(renumbered(events.last())),
        }
    }
}

/// The packets of other streams change nothing: without them, the conversion
/// comes to the same state, with the same samples.
pub proof fn law_other_streams_leave_no_trace(target_rate: u32, events: Seq<ConvertEvent>)
    requires
        convert::runs(convert::begun(target_rate), events),
    ensures
        ({
            let start = convert::begun(target_rate);
            let own = own_events(start, events);
            &&& convert::runs(start, own)
            &&& convert::run(start, own) == (ConvertState {
                stream: 0,
                ..convert::run(start, events)
            })
            &&& convert::decoded_in(own) == convert::decoded_in(events)
        }),
    decreases events.len(),
{
    let start = convert::begun(target_rate);
    if events.len() > 0 {
        let before = events.drop_last();
        law_other_streams_leave_no_trace(target_rate, before);
        let sofar = own_events(start, before);
        let own = own_events(start, events);
        if own.len() > sofar.len() {
            assert(own.drop_last() =~= sofar);
        }
    }
}

/// Inputs that differ only in what other streams hold are converted alike: to
/// the same phase, with the same failure if there is one, and to the same file.
pub proof fn law_same_stream_same_file(
    target_rate: u32,
    first: Seq<ConvertEvent>,
    second: Seq<ConvertEvent>,
)
    requires
        convert::runs(convert::begun(target_rate), first),
        convert::runs(convert::begun(target_rate), second),
        own_events(convert::begun(target_rate), first) == own_events(
            convert::begun(target_rate),
            second,
        ),
    ensures
        ({
            let one = convert::run(convert::begun(target_rate), first);
            let other = convert::run(convert::begun(target_rate), second);
            &&& one.phase == other.phase
            &&& one.due() == other.due()
            &&& one.failure() == other.failure()
            &&& convert::decoded_in(first) == convert::decoded_in(second)
            &&& converted(target_rate, first) == converted(target_rate, second)
        }),
{
    law_other_streams_leave_no_trace(target_rate, first);
    law_other_streams_leave_no_trace(target_rate, second);
}

/// The frame holds one channel of 16-bit samples, all of them.
pub open spec fn is_mono_i16(f: DecodedFrame) -> bool {
    &&& f.format is I16
    &&& f.channels == 1
    &&& f.planes@.len() > 0
    &&& 2 * f.samples <= f.planes@[0]@.len()
}

/// The values of such a frame.
pub open spec fn values_of(f: DecodedFrame) -> Seq<int> {
    Seq::new(
        f.samples as nat,
        |i: int| pcm::of_bytes(f.planes@[0]@[2 * i], f.planes@[0]@[2 * i + 1]),
    )
}

/// The values of all such frames among events.
pub open spec fn values_in(events: Seq<ConvertEvent>) -> Seq<int>
    decreases events.len(),
{
    if events.len() == 0 {
        seq![]
    } else {
        match events.last() {
            ConvertEvent::Frame(f) => values_in(events.drop_last()) + values_of(f),
            _ => values_in(events.drop_last()),
        }
    }
}

/// A value one step nearer to silence.
pub open spec fn nearer(v: int) -> int {
    if v > 0 {
        v - 1
    } else if v < 0 {
        v + 1
    } else {
        0
    }
}

/// Values one step nearer to silence.
pub open spec fn all_nearer(values: Seq<int>) -> Seq<int> {
    values.map_values(|v: int| nearer(v))
}

/// The amplitudes of one channel of 16-bit samples are their values, one step
/// nearer to silence.
proof fn lemma_frame_nearer(f: DecodedFrame)
    requires
        is_mono_i16(f),
    ensures
        pcm::amplitudes(f.mono()) == all_nearer(values_of(f)),
{
    let values = Seq::new(f.samples as nat, |i: int| seq![values_of(f)[i]]);
    assert(downmix::holds_i16(f, values));
    assert forall|i: int| 0 <= i < f.samples implies pcm::amplitudes(f.mono())[i] == all_nearer(
        values_of(f),
    )[i] by {
        let v = values_of(f)[i];
        downmix::law_equal_channels_are_one(f, values, i);
        assert(f.mono()[i] == Sample::of(frame::scaled(v, 0x8000)));
        frame::law_i16_loses_one_step(v);
    }
    assert(pcm::amplitudes(f.mono()) =~= all_nearer(values_of(f)));
}

/// The same of all frames.
proof fn lemma_all_nearer(events: Seq<ConvertEvent>)
    requires
        forall|k: int|
            0 <= k < convert::frames_in(events).len() ==> is_mono_i16(
                #[trigger] convert::frames_in(events)[k],
            ),
    ensures
        pcm::amplitudes(convert::decoded_in(events)) == all_nearer(values_in(events)),
    decreases events.len(),
{
    if events.len() > 0 {
        let before = events.drop_last();
        let frames = convert::frames_in(events);
        assert forall|k: int| 0 <= k < convert::frames_in(before).len() implies is_mono_i16(
            #[trigger] convert::frames_in(before)[k],
        ) by {
            assert(convert::frames_in(before)[k] == frames[k]);
        }
        lemma_all_nearer(before);
        if let ConvertEvent::Frame(f) = events.last() {
            assert(frames[frames.len() - 1] == f);
            lemma_frame_nearer(f);
            assert(pcm::amplitudes(convert::decoded_in(before) + f.mono()) =~= pcm::amplitudes(
                convert::decoded_in(before),
            ) + pcm::amplitudes(f.mono()));
            assert(all_nearer(values_in(before) + values_of(f)) =~= all_nearer(values_in(before))
                + all_nearer(values_of(f)));
        }
    } else {
        assert(pcm::amplitudes(convert::decoded_in(events)) =~= all_nearer(values_in(events)));
    }
}

/// One channel of 16-bit samples at the target rate becomes the file of the
/// same samples, each one step nearer to silence.
pub proof fn law_mono_i16_comes_one_step_nearer(target_rate: u32, events: Seq<ConvertEvent>)
    requires
        convert::runs(convert::begun(target_rate), events),
        convert::frames_in(events).len() > 0,
        convert::frames_in(events)[0].rate == target_rate,
        forall|k: int|
            0 <= k < convert::frames_in(events).len() ==> is_mono_i16(
                #[trigger] convert::frames_in(events)[k],
            ),
    ensures
        convert::decoded_in(events).len() == values_in(events).len(),
        converted(target_rate, events) == wav::file(
            target_rate as int,
            all_nearer(values_in(events)),
        ),
{
    convert::law_first_frame_sets_rate(target_rate, events);
    lemma_all_nearer(events);
    assert(pcm::amplitudes(convert::decoded_in(events)).len() == convert::decoded_in(events).len());
}

/// Encoding samples as a WAV file and converting that at its own rate, where
/// the decoder gives the file's amplitudes back, keeps the length and the header
/// of the file, and moves each amplitude one step nearer to silence.
pub proof fn law_wav_round_trip(
    samples: Seq<Sample>,
    rate: u32,
    events: Seq<ConvertEvent>,
    i: int,
)
    requires
        wav::representable(samples.len(), rate),
        convert::runs(convert::begun(rate), events),
        convert::frames_in(events).len() > 0,
        convert::frames_in(events)[0].rate == rate,
        forall|k: int|
            0 <= k < convert::frames_in(events).len() ==> is_mono_i16(
                #[trigger] convert::frames_in(events)[k],
            ),
        values_in(events) == pcm::amplitudes(samples),
        0 <= i < samples.len(),
    ensures
        ({
            let a = wav::file(rate as int, pcm::amplitudes(samples));
            let w = converted(rate, events);
            &&& w.len() == a.len() == 44 + 2 * samples.len()
            &&& w.take(44) == a.take(44)
            &&& pcm::of_bytes(w[44 + 2 * i], w[45 + 2 * i]) == nearer(
                pcm::of_bytes(a[44 + 2 * i], a[45 + 2 * i]),
            )
        }),
{
    law_mono_i16_comes_one_step_nearer(rate, events);
    let before = pcm::amplitudes(samples);
    let after = all_nearer(before);
    sample::law_quantized_in_range(samples[i]);
    assert(before[i] == sample::quantized(samples[i]));
    wav::law_wav_reads_back(rate, before, i);
    wav::law_wav_reads_back(rate, after, i);
    let size = 2 * samples.len() as int;
    assert(wav::file(rate as int, before).take(44) =~= wav::header(rate as int, size));
    assert(wav::file(rate as int, after).take(44) =~= wav::header(rate as int, size));
}

/// The rate that samples are taken to have is that of the first frame.
pub proof fn law_rate_is_that_of_the_first_frame(target_rate: u32, events: Seq<ConvertEvent>)
    requires
        convert::runs(convert::begun(target_rate), events),
        convert::frames_in(events).len() > 0,
    ensures
        convert::run(convert::begun(target_rate), events).rate() == convert::frames_in(
            events,
        )[0].rate,
{
    convert::law_first_frame_sets_rate(target_rate, events);
}

/// What is rendered is the file at the target rate of the decoded samples,
/// brought to that rate from the rate of the first frame.
pub proof fn law_converted_from_the_first_rate(target_rate: u32, events: Seq<ConvertEvent>)
    requires
        convert::runs(convert::begun(target_rate), events),
        convert::frames_in(events).len() > 0,
    ensures
        converted(target_rate, events) == wav::file(
            target_rate as int,
            pcm::amplitudes(
                stretch::resampled(
                    convert::decoded_in(events),
                    convert::frames_in(events)[0].rate,
                    target_rate,
                ),
            ),
        ),
{
    law_rate_is_that_of_the_first_frame(target_rate, events);
}

/// A converted file plays as long as its source, up to rounding: of `n` samples
/// at the rate `f` of the first frame, it holds `n * t / f` at the target rate
/// `t`, and says so. `most` is any number that these do not exceed.
pub proof fn law_converted_plays_as_long(target_rate: u32, events: Seq<ConvertEvent>, most: nat)
    requires
        convert::runs(convert::begun(target_rate), events),
        convert::frames_in(events).len() > 0,
        0 < convert::frames_in(events)[0].rate,
        0 < convert::decoded_in(events).len() < 0x20_0000_0000_0000,
        convert::decoded_in(events).len() * target_rate <= convert::frames_in(events)[0].rate
            * most,
        most < usize::MAX,
        wav::representable(most, target_rate),
    ensures
        ({
            let f = convert::frames_in(events)[0].rate;
            let n = convert::decoded_in(events).len() * target_rate;
            let w = converted(target_rate, events);
            let held = (w.len() - 44) / 2;
            &&& w.len() == 44 + 2 * held
            &&& wav::u32_at(w, 24) == target_rate
            &&& wav::u32_at(w, 40) == 2 * held
            &&& (held * f) * 0x4_0000_0000_0000 <= n * 0x4_0000_0000_0001
            &&& n * 0x3_ffff_ffff_ffff <= ((held + 1) * f) * 0x4_0000_0000_0000
        }),
{
    let f = convert::frames_in(events)[0].rate;
    let decoded = convert::decoded_in(events);
    law_converted_from_the_first_rate(target_rate, events);
    let r = stretch::resampled(decoded, f, target_rate);
    lemma_held(decoded, f, target_rate, most);
    lemma_told(r, target_rate);
}

/// How many samples there are at the target rate.
proof fn lemma_held(decoded: Seq<Sample>, from: u32, to: u32, most: nat)
    requires
        0 < decoded.len() < 0x20_0000_0000_0000,
        0 < from,
        decoded.len() * to <= from * most,
        most < usize::MAX,
        wav::representable(most, to),
    ensures
        ({
            let n = decoded.len() * to;
            let held = stretch::resampled(decoded, from, to).len();
            &&& held <= most
            &&& (held * from) * 0x4_0000_0000_0000 <= n * 0x4_0000_0000_0001
            &&& n * 0x3_ffff_ffff_ffff <= ((held + 1) * from) * 0x4_0000_0000_0000
        }),
{
    fidelity::law_resampled_length(decoded, from, to, most);
    if from == to {
        assert(decoded.len() <= most) by (nonlinear_arith)
            requires
                decoded.len() * to <= from * most,
                from == to,
                from > 0,
        ;
    }
}

/// What the file of some samples tells of itself.
proof fn lemma_told(samples: Seq<Sample>, rate: u32)
    requires
        wav::representable(samples.len(), rate),
    ensures
        ({
            let w = wav::file(rate as int, pcm::amplitudes(samples));
            &&& w.len() == 44 + 2 * samples.len()
            &&& (w.len() - 44) / 2 == samples.len()
            &&& wav::u32_at(w, 24) == rate
            &&& wav::u32_at(w, 40) == 2 * samples.len()
        }),
{
    assert(pcm::amplitudes(samples).len() == samples.len());
    wav::law_wav_reads_back(rate, pcm::amplitudes(samples), -1);
}

/// A converted file follows its source: the `i`th amplitude is that of a sample
/// on the line through the decoded samples, at `i` times the rate of the first
/// frame over the target rate.
pub proof fn law_converted_follows_the_source(
    target_rate: u32,
    events: Seq<ConvertEvent>,
    bound: nat,
    most: nat,
    i: nat,
)
    requires
        convert::runs(convert::begun(target_rate), events),
        convert::frames_in(events).len() > 0,
        0 < convert::frames_in(events)[0].rate,
        convert::frames_in(events)[0].rate != target_rate,
        0 < convert::decoded_in(events).len() < 0x20_0000_0000_0000,
        convert::decoded_in(events).len() <= usize::MAX,
        convert::decoded_in(events).len() * target_rate <= convert::frames_in(events)[0].rate
            * most,
        most < usize::MAX,
        wav::representable(most, target_rate),
        interpolate::bounded(convert::decoded_in(events), bound),
        bound <= pow2(275),
        44 + 2 * i + 1 < converted(target_rate, events).len(),
    ensures
        ({
            let w = converted(target_rate, events);
            exists|y: Sample|
                pcm::of_bytes(w[44 + 2 * i as int], w[45 + 2 * i as int])
                    == #[trigger] sample::quantized(y)
                    && interpolate::on_line(
                    number::value(Width::Single, y.number()),
                    convert::decoded_in(events),
                    i * convert::frames_in(events)[0].rate,
                    target_rate as int,
                    bound,
                )
        }),
{
    let f = convert::frames_in(events)[0].rate;
    let decoded = convert::decoded_in(events);
    law_converted_from_the_first_rate(target_rate, events);
    fidelity::law_resampled_length(decoded, f, target_rate, most);
    let r = stretch::resampled(decoded, f, target_rate);
    let amplitudes = pcm::amplitudes(r);
    assert(amplitudes.len() == r.len());
    if (i as int) < r.len() {
        sample::law_quantized_in_range(r[i as int]);
        assert(amplitudes[i as int] == sample::quantized(r[i as int]));
    }
    wav::law_wav_reads_back(target_rate, amplitudes, i as int);
    fidelity::law_resampled_follows_the_line(decoded, f, target_rate, bound, most, i);
}

/// A conversion can go on whenever the samples at the target rate fit one
/// allocation.
pub proof fn law_conversion_can_resample(conversion: convert::Conversion, most: nat)
    requires
        0 < conversion.decoded@.len() < 0x20_0000_0000_0000,
        conversion.state.source_rate is Some,
        0 < conversion.state.source_rate->0,
        conversion.decoded@.len() * conversion.state.target_rate <= conversion.state.source_rate->0
            * most,
        most <= 0x4_0000_0000_0000,
        4 * most <= isize::MAX,
    ensures
        conversion.resamples(),
{
    let f = conversion.state.source_rate->0;
    let t = conversion.state.target_rate;
    let n = conversion.decoded@.len();
    fidelity::law_allocation_limit(most);
    if f != t {
        fidelity::lemma_resampled_most(n, f, t, most);
    }
}

} // verus!
