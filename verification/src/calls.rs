//! Laws of the calls that an encoding makes: their order, what is written, and
//! what comes back.

use crate::config::ResponseFormat;
use crate::encoder;
use crate::encoder::Codec;
use crate::encoder::EncodeAction;
use crate::encoder::EncodeEvent;
use crate::encoder::EncodePhase;
use crate::encoder::EncodeSession;
use crate::encoder::EncodeState;
use crate::media::Layout;
use crate::media::SampleFormat;
use crate::media::TimeBase;
use crate::media::FIRST_STREAM;
use crate::media::MONO;
use crate::pcm;
use crate::sample::Sample;
use vstd::prelude::*;

verus! {

/// The calls that were made in the course of a row of events, one for each.
pub open spec fn calls(state: EncodeState, events: Seq<EncodeEvent>) -> Seq<EncodeAction>
    decreases events.len(),
{
    if events.len() == 0 {
        seq![]
    } else {
        calls(state, events.drop_last()).push(encoder::run(state, events.drop_last()).due())
    }
}

/// A packet that an encoder gives: its size, and the base of its times.
pub struct GivenPacket {
    pub size: usize,
    pub time_base: TimeBase,
}

/// The events of an encoder that gives these packets, each of which is written
/// without a failure if it holds something.
pub open spec fn giving(packets: Seq<GivenPacket>) -> Seq<EncodeEvent>
    decreases packets.len(),
{
    if packets.len() == 0 {
        seq![]
    } else {
        let p = packets.last();
        let given = giving(packets.drop_last()).push(
            EncodeEvent::Packet { size: p.size, time_base: p.time_base },
        );
        if p.size == 0 {
            given
        } else {
            given.push(EncodeEvent::Done)
        }
    }
}

/// The calls that write these packets: one for each that holds something, into
/// the first stream, with its times brought from the packet's base to the
/// stream's.
pub open spec fn writing(packets: Seq<GivenPacket>, to: TimeBase) -> Seq<EncodeAction>
    decreases packets.len(),
{
    if packets.len() == 0 {
        seq![]
    } else {
        let p = packets.last();
        let before = writing(packets.drop_last(), to);
        if p.size == 0 {
            before
        } else {
            before.push(
                EncodeAction::WritePacket { stream: FIRST_STREAM, from: p.time_base, to },
            )
        }
    }
}

/// The calls among some that write a packet.
pub open spec fn writes_among(made: Seq<EncodeAction>) -> Seq<EncodeAction>
    decreases made.len(),
{
    if made.len() == 0 {
        seq![]
    } else if made.last() is WritePacket {
        writes_among(made.drop_last()).push(made.last())
    } else {
        writes_among(made.drop_last())
    }
}

/// How many calls among some ask for a packet.
pub open spec fn asks_among(made: Seq<EncodeAction>) -> nat
    decreases made.len(),
{
    if made.len() == 0 {
        0
    } else if made.last() is ReceivePacket {
        asks_among(made.drop_last()) + 1
    } else {
        asks_among(made.drop_last())
    }
}

/// One more event adds the call that was due.
proof fn lemma_one_more(state: EncodeState, events: Seq<EncodeEvent>, event: EncodeEvent)
    requires
        encoder::runs(state, events),
        encoder::run(state, events).accepts(event),
    ensures
        encoder::runs(state, events.push(event)),
        encoder::run(state, events.push(event)) == encoder::run(state, events).after(event),
        calls(state, events.push(event)) == calls(state, events).push(
            encoder::run(state, events).due(),
        ),
{
    assert(events.push(event).drop_last() =~= events);
}

/// One more call counts as what it is.
proof fn lemma_among(made: Seq<EncodeAction>, call: EncodeAction)
    ensures
        writes_among(made.push(call)) == if call is WritePacket {
            writes_among(made).push(call)
        } else {
            writes_among(made)
        },
        asks_among(made.push(call)) == if call is ReceivePacket {
            asks_among(made) + 1
        } else {
            asks_among(made)
        },
{
    assert(made.push(call).drop_last() =~= made);
}

/// An encoder that gives packets is asked on, and those that hold something are
/// written.
proof fn lemma_giving(state: EncodeState, packets: Seq<GivenPacket>)
    requires
        state.phase is ReceivePacket,
    ensures
        encoder::runs(state, giving(packets)),
        encoder::run(state, giving(packets)) == state,
        writes_among(calls(state, giving(packets))) == writing(packets, state.time_base),
        asks_among(calls(state, giving(packets))) == packets.len(),
    decreases packets.len(),
{
    if packets.len() > 0 {
        let before = giving(packets.drop_last());
        let p = packets.last();
        lemma_giving(state, packets.drop_last());
        let packet = EncodeEvent::Packet { size: p.size, time_base: p.time_base };
        lemma_one_more(state, before, packet);
        lemma_among(calls(state, before), state.due());
        if p.size > 0 {
            let given = before.push(packet);
            let writes = encoder::run(state, given);
            lemma_one_more(state, given, EncodeEvent::Done);
            lemma_among(calls(state, given), writes.due());
        }
    }
}

/// An encoder is asked for packets until it has none, once for each packet and
/// once more. Every packet that holds something is written, once and in the
/// order received, into the first stream, with its times brought from the
/// encoder's base to the stream's; no other call writes.
pub proof fn law_packets_are_drained(state: EncodeState, packets: Seq<GivenPacket>)
    requires
        state.phase is ReceivePacket,
    ensures
        ({
            let events = giving(packets).push(EncodeEvent::NoPacket);
            &&& encoder::runs(state, events)
            &&& encoder::run(state, events) == state.after(EncodeEvent::NoPacket)
            &&& writes_among(calls(state, events)) == writing(packets, state.time_base)
            &&& asks_among(calls(state, events)) == packets.len() + 1
        }),
{
    lemma_giving(state, packets);
    lemma_one_more(state, giving(packets), EncodeEvent::NoPacket);
    lemma_among(calls(state, giving(packets)), state.due());
}

/// Only packets that hold something are written, and each of them is.
pub proof fn law_empty_packets_are_skipped(state: EncodeState, size: usize, time_base: TimeBase)
    requires
        state.phase is ReceivePacket,
    ensures
        state.after(EncodeEvent::Packet { size, time_base }).phase is WritePacket <==> size > 0,
        size == 0 ==> state.after(EncodeEvent::Packet { size, time_base }) == state,
{
}

/// How far a phase lies in the course of an encoding. Phases that come round
/// again lie equally far.
spec fn stage(phase: EncodePhase) -> int {
    match phase {
        EncodePhase::WriteHeader => 1,
        EncodePhase::CreateResampler => 2,
        EncodePhase::Frame => 2,
        EncodePhase::SendResampled => 2,
        EncodePhase::ReceivePacket { flushing } => if flushing {
            4
        } else {
            2
        },
        EncodePhase::WritePacket { flushing, from } => if flushing {
            4
        } else {
            2
        },
        EncodePhase::SendEof => 3,
        EncodePhase::WriteTrailer => 5,
        EncodePhase::ReadOutput => 6,
        EncodePhase::Finished => 7,
        EncodePhase::Stopped => 8,
        _ => 0,
    }
}

/// The call hands samples to the encoder or to the resampler before it.
pub open spec fn hands_over(call: EncodeAction) -> bool {
    call is Resample || call is SendDirect || call is SendResampled
}

/// Just one of the calls is of this kind, at this place.
spec fn only_at(made: Seq<EncodeAction>, at: int, kind: spec_fn(EncodeAction) -> bool) -> bool {
    &&& 0 <= at < made.len()
    &&& forall|k: int| 0 <= k < made.len() ==> (kind(#[trigger] made[k]) <==> k == at)
}

/// None of the calls is of this kind.
spec fn never(made: Seq<EncodeAction>, kind: spec_fn(EncodeAction) -> bool) -> bool {
    forall|k: int| 0 <= k < made.len() ==> !kind(#[trigger] made[k])
}

/// The places of the header, the end of the samples and the trailer among the
/// calls.
pub struct Places {
    pub header: int,
    pub eof: int,
    pub trailer: int,
}

/// What the calls made so far say of a state, given the places.
spec fn in_order(now: EncodeState, made: Seq<EncodeAction>, places: Places) -> bool {
    let far = stage(now.phase);
    let is_header = |call: EncodeAction| call is WriteHeader;
    let is_eof = |call: EncodeAction| call is SendEof;
    let is_trailer = |call: EncodeAction| call is WriteTrailer;
    &&& if far > 1 {
        only_at(made, places.header, is_header)
    } else {
        never(made, is_header)
    }
    &&& if far > 3 {
        only_at(made, places.eof, is_eof) && places.header < places.eof
    } else {
        never(made, is_eof)
    }
    &&& if far > 5 {
        only_at(made, places.trailer, is_trailer) && places.eof < places.trailer
    } else {
        never(made, is_trailer)
    }
    &&& forall|k: int|
        0 <= k < made.len() && hands_over(#[trigger] made[k]) ==> far > 1 && places.header < k && (
        far > 3 ==> k < places.eof)
    &&& forall|k: int|
        0 <= k < made.len() && (#[trigger] made[k]) is WritePacket ==> far > 1 && places.header < k
            && (far > 5 ==> k < places.trailer)
}

/// A step keeps the calls in order.
proof fn lemma_in_order_step(
    now: EncodeState,
    event: EncodeEvent,
    made: Seq<EncodeAction>,
    places: Places,
) -> (next: Places)
    requires
        now.accepts(event),
        !(event is Failed) && !(event is Missing),
        in_order(now, made, places),
    ensures
        in_order(now.after(event), made.push(now.due()), next),
{
    let after = made.push(now.due());
    let here = made.len() as int;
    let next = match now.phase {
        EncodePhase::WriteHeader => Places { header: here, ..places },
        EncodePhase::SendEof => Places { eof: here, ..places },
        EncodePhase::WriteTrailer => Places { trailer: here, ..places },
        _ => places,
    };
    let is_header = |call: EncodeAction| call is WriteHeader;
    let is_eof = |call: EncodeAction| call is SendEof;
    let is_trailer = |call: EncodeAction| call is WriteTrailer;
    assert(forall|k: int| 0 <= k < here ==> after[k] == made[k]);
    let far = stage(now.phase);
    let then = stage(now.after(event).phase);
    assert(far <= then);
    assert(if then > 1 {
        only_at(after, next.header, is_header)
    } else {
        never(after, is_header)
    });
    assert(if then > 3 {
        only_at(after, next.eof, is_eof) && next.header < next.eof
    } else {
        never(after, is_eof)
    });
    assert(if then > 5 {
        only_at(after, next.trailer, is_trailer) && next.eof < next.trailer
    } else {
        never(after, is_trailer)
    });
    next
}

/// The calls of an encoding that goes on are in order.
proof fn lemma_in_order(start: EncodeState, events: Seq<EncodeEvent>) -> (places: Places)
    requires
        start.phase is Initialize,
        encoder::runs(start, events),
        !(encoder::run(start, events).phase is Stopped),
    ensures
        in_order(encoder::run(start, events), calls(start, events), places),
    decreases events.len(),
{
    if events.len() == 0 {
        Places { header: 0, eof: 0, trailer: 0 }
    } else {
        let before = events.drop_last();
        let places = lemma_in_order(start, before);
        lemma_in_order_step(
            encoder::run(start, before),
            events.last(),
            calls(start, before),
            places,
        )
    }
}

/// An encoding that is finished made these calls: the header was written once,
/// then samples were handed over, then the encoder was told once that there are
/// no more, then the trailer was written once. Packets were written between
/// header and trailer.
pub open spec fn made_in_order(made: Seq<EncodeAction>, places: Places) -> bool {
    &&& 0 <= places.header < places.eof < places.trailer < made.len()
    &&& forall|k: int|
        0 <= k < made.len() ==> ((#[trigger] made[k]) is WriteHeader <==> k == places.header)
    &&& forall|k: int| 0 <= k < made.len() ==> ((#[trigger] made[k]) is SendEof <==> k == places.eof)
    &&& forall|k: int|
        0 <= k < made.len() ==> ((#[trigger] made[k]) is WriteTrailer <==> k == places.trailer)
    &&& forall|k: int|
        0 <= k < made.len() && hands_over(#[trigger] made[k]) ==> places.header < k < places.eof
    &&& forall|k: int|
        0 <= k < made.len() && (#[trigger] made[k]) is WritePacket ==> places.header < k
            < places.trailer
}

/// The calls of an encoding that is finished were made in order: one header,
/// the samples, one end of the samples, one trailer.
pub proof fn law_calls_are_in_order(
    codec: Codec,
    sample_rate: u32,
    total: usize,
    events: Seq<EncodeEvent>,
)
    requires
        encoder::runs(encoder::begun(codec, sample_rate, total), events),
        encoder::run(encoder::begun(codec, sample_rate, total), events).phase is Finished,
    ensures
        exists|places: Places| #[trigger]
            made_in_order(calls(encoder::begun(codec, sample_rate, total), events), places),
{
    let start = encoder::begun(codec, sample_rate, total);
    let made = calls(start, events);
    let places = lemma_in_order(start, events);
    let is_header = |call: EncodeAction| call is WriteHeader;
    let is_eof = |call: EncodeAction| call is SendEof;
    let is_trailer = |call: EncodeAction| call is WriteTrailer;
    assert(only_at(made, places.header, is_header));
    assert(only_at(made, places.eof, is_eof));
    assert(only_at(made, places.trailer, is_trailer));
    assert forall|k: int| 0 <= k < made.len() implies ((#[trigger] made[k]) is WriteHeader <==> k
        == places.header) by {
        assert(is_header(made[k]) <==> k == places.header);
    }
    assert forall|k: int| 0 <= k < made.len() implies ((#[trigger] made[k]) is SendEof <==> k
        == places.eof) by {
        assert(is_eof(made[k]) <==> k == places.eof);
    }
    assert forall|k: int| 0 <= k < made.len() implies ((#[trigger] made[k]) is WriteTrailer <==> k
        == places.trailer) by {
        assert(is_trailer(made[k]) <==> k == places.trailer);
    }
    assert(made_in_order(made, places));
}

/// The output that a row of events leaves behind.
pub open spec fn output_in(events: Seq<EncodeEvent>) -> Seq<u8>
    decreases events.len(),
{
    if events.len() == 0 {
        seq![]
    } else {
        encoder::output_after(output_in(events.drop_last()), events.last())
    }
}

/// The output is what was read back of the encoded file, all of it and nothing
/// else; an encoding that has not come so far, or that failed, has none.
pub proof fn law_output_is_what_was_read(
    codec: Codec,
    sample_rate: u32,
    total: usize,
    events: Seq<EncodeEvent>,
)
    requires
        encoder::runs(encoder::begun(codec, sample_rate, total), events),
    ensures
        ({
            let now = encoder::run(encoder::begun(codec, sample_rate, total), events);
            &&& now.phase is Finished ==> events.len() > 0 && (events.last() matches
                EncodeEvent::Read(bytes) && output_in(events) == bytes@)
            &&& !(now.phase is Finished) ==> output_in(events) == Seq::<u8>::empty()
        }),
    decreases events.len(),
{
    if events.len() > 0 {
        law_output_is_what_was_read(codec, sample_rate, total, events.drop_last());
    }
}

/// Where the encoder takes 16-bit integers at the rate of the samples, and a
/// decoder gives back the stream of integers that the encoder was handed, it
/// gives the amplitude of every sample, in order and at that rate: those of raw
/// PCM.
pub proof fn law_lossless_round_trip(
    samples: Seq<Sample>,
    codec: Codec,
    sample_rate: u32,
    total: usize,
    events: Seq<EncodeEvent>,
    decoded: Seq<int>,
)
    requires
        samples.len() == total,
        total <= i64::MAX,
        encoder::runs(encoder::begun(codec, sample_rate, total), events),
        encoder::run(encoder::begun(codec, sample_rate, total), events).past_frames(),
        !encoder::run(encoder::begun(codec, sample_rate, total), events).resamples(),
        decoded == pcm::values(
            encoder::bytes_taken(samples, encoder::begun(codec, sample_rate, total), events),
        ),
    ensures
        decoded == pcm::amplitudes(samples),
        encoder::run(encoder::begun(codec, sample_rate, total), events).rate() == sample_rate,
{
    let start = encoder::begun(codec, sample_rate, total);
    encoder::law_encoder_is_handed_the_pcm(samples, codec, sample_rate, total, events);
    pcm::law_pcm_values(samples);
    lemma_same_samples(start, events);
}

/// An encoding keeps its codec and the rate of its samples.
proof fn lemma_same_samples(start: EncodeState, events: Seq<EncodeEvent>)
    ensures
        encoder::run(start, events).codec == start.codec,
        encoder::run(start, events).sample_rate == start.sample_rate,
    decreases events.len(),
{
    if events.len() > 0 {
        lemma_same_samples(start, events.drop_last());
    }
}

/// A call of this kind is what comes next after a call and what came of it.
pub open spec fn follows(call: EncodeAction, event: EncodeEvent, next: EncodeAction) -> bool {
    if event is Failed || event is Missing {
        next is Finish
    } else {
        match call {
            EncodeAction::Initialize => next is FindEncoder,
            EncodeAction::FindEncoder { .. } => next is CreateFile,
            EncodeAction::CreateFile => next is OpenOutput,
            EncodeAction::OpenOutput => next is AddStream,
            EncodeAction::AddStream => event matches EncodeEvent::StreamAdded { global_header }
                && next == EncodeAction::CreateEncoder { global_header },
            EncodeAction::CreateEncoder { .. } => next is OpenEncoder,
            EncodeAction::OpenEncoder { .. } => next is SetParameters,
            EncodeAction::SetParameters => next is WriteHeader,
            EncodeAction::WriteHeader => next is CreateResampler || next is SendDirect
                || next is SendEof,
            EncodeAction::CreateResampler { .. } => next is Resample || next is SendDirect
                || next is SendEof,
            EncodeAction::Resample { .. } => event matches EncodeEvent::Resampled { count }
                && if count > 0 {
                next is SendResampled
            } else {
                next is Resample || next is SendEof
            },
            EncodeAction::SendResampled => next is ReceivePacket,
            EncodeAction::SendDirect { .. } => next is ReceivePacket,
            EncodeAction::ReceivePacket => match event {
                EncodeEvent::Packet { size, time_base } => if size > 0 {
                    next matches EncodeAction::WritePacket { stream, from, to } && stream == 0
                        && from == time_base
                } else {
                    next is ReceivePacket
                },
                _ => next is Resample || next is SendDirect || next is SendEof
                    || next is WriteTrailer,
            },
            EncodeAction::WritePacket { .. } => next is ReceivePacket,
            EncodeAction::SendEof => next is ReceivePacket,
            EncodeAction::WriteTrailer => next is ReadOutput,
            EncodeAction::ReadOutput => next is Finish,
            EncodeAction::Finish => false,
        }
    }
}

/// Which call comes next goes by the last call and what came of it.
pub proof fn law_calls_follow_each_other(state: EncodeState, event: EncodeEvent)
    requires
        state.well_formed(),
        state.accepts(event),
    ensures
        follows(state.due(), event, state.after(event).due()),
{
}

/// The sample format that the encoder listed first, or packed 16-bit integers
/// if it listed none.
pub open spec fn listed(events: Seq<EncodeEvent>) -> SampleFormat
    decreases events.len(),
{
    if events.len() == 0 {
        SampleFormat::I16(Layout::Packed)
    } else {
        match events.last() {
            EncodeEvent::EncoderFound { preferred } => match preferred {
                Some(format) => format,
                None => SampleFormat::I16(Layout::Packed),
            },
            _ => listed(events.drop_last()),
        }
    }
}

/// How many samples the encoder asked for in a frame, 1024 if it takes any
/// number.
pub open spec fn asked_for(events: Seq<EncodeEvent>) -> int
    decreases events.len(),
{
    if events.len() == 0 {
        1024
    } else {
        match events.last() {
            EncodeEvent::EncoderOpened { frame_size } => if frame_size > 0 {
                frame_size as int
            } else {
                1024
            },
            _ => asked_for(events.drop_last()),
        }
    }
}

/// The time base that came with the header.
pub open spec fn told_time(events: Seq<EncodeEvent>) -> Option<TimeBase>
    decreases events.len(),
{
    if events.len() == 0 {
        None
    } else {
        match events.last() {
            EncodeEvent::HeaderWritten { time_base } => Some(time_base),
            _ => told_time(events.drop_last()),
        }
    }
}

/// The rate that the encoder runs at: 48 kHz for Opus, else that of the samples.
pub open spec fn rate_for(codec: Codec, sample_rate: u32) -> u32 {
    match codec {
        Codec::Opus => 48000,
        Codec::Mp3 => sample_rate,
        Codec::Aac => sample_rate,
        Codec::Flac => sample_rate,
    }
}

/// The call that opens the encoder.
pub open spec fn opening(codec: Codec, sample_rate: u32, events: Seq<EncodeEvent>) -> EncodeAction {
    EncodeAction::OpenEncoder {
        rate: rate_for(codec, sample_rate),
        channels: MONO,
        format: listed(events),
    }
}

/// The call that creates the resampler.
pub open spec fn resampling(
    codec: Codec,
    sample_rate: u32,
    events: Seq<EncodeEvent>,
) -> EncodeAction {
    EncodeAction::CreateResampler {
        from_rate: sample_rate,
        to_rate: rate_for(codec, sample_rate),
        channels: MONO,
        to_format: listed(events),
    }
}

/// The encoder takes the samples as packed 16-bit integers at their own rate.
pub open spec fn takes_directly(
    codec: Codec,
    sample_rate: u32,
    events: Seq<EncodeEvent>,
) -> bool {
    rate_for(codec, sample_rate) == sample_rate && listed(events) == SampleFormat::I16(
        Layout::Packed,
    )
}

/// The encoder is not yet open in this phase.
spec fn unopened(phase: EncodePhase) -> bool {
    match phase {
        EncodePhase::Initialize => true,
        EncodePhase::FindEncoder => true,
        EncodePhase::CreateFile => true,
        EncodePhase::OpenOutput => true,
        EncodePhase::AddStream => true,
        EncodePhase::CreateEncoder { global_header } => true,
        EncodePhase::OpenEncoder => true,
        _ => false,
    }
}

/// What was set up before a state.
spec fn is_set_up(
    codec: Codec,
    sample_rate: u32,
    now: EncodeState,
    events: Seq<EncodeEvent>,
    made: Seq<EncodeAction>,
) -> bool {
    &&& now.codec == codec
    &&& now.sample_rate == sample_rate
    &&& now.well_formed()
    &&& now.format == listed(events)
    &&& now.frame_size == asked_for(events)
    &&& stage(now.phase) > 1 ==> Some(now.time_base) == told_time(events)
    &&& !unopened(now.phase) ==> made.contains(opening(codec, sample_rate, events))
    &&& stage(now.phase) > 1 && !(now.phase is CreateResampler) && !takes_directly(
        codec,
        sample_rate,
        events,
    ) ==> made.contains(resampling(codec, sample_rate, events))
    &&& now.phase is CreateResampler ==> !takes_directly(codec, sample_rate, events)
}

/// A call that was made stays made, and the last one was.
proof fn lemma_made(made: Seq<EncodeAction>, call: EncodeAction, other: EncodeAction)
    ensures
        made.push(call).contains(call),
        made.contains(other) ==> made.push(call).contains(other),
{
    assert(made.push(call)[made.len() as int] == call);
    if made.contains(other) {
        let k = choose|k: int| 0 <= k < made.len() && made[k] == other;
        assert(made.push(call)[k] == other);
    }
}

/// Each event keeps what was set up.
proof fn lemma_set_up(codec: Codec, sample_rate: u32, total: usize, events: Seq<EncodeEvent>)
    requires
        total <= i64::MAX,
        encoder::runs(encoder::begun(codec, sample_rate, total), events),
        !(encoder::run(encoder::begun(codec, sample_rate, total), events).phase is Stopped),
    ensures
        is_set_up(
            codec,
            sample_rate,
            encoder::run(encoder::begun(codec, sample_rate, total), events),
            events,
            calls(encoder::begun(codec, sample_rate, total), events),
        ),
    decreases events.len(),
{
    let start = encoder::begun(codec, sample_rate, total);
    if events.len() > 0 {
        let before = events.drop_last();
        let event = events.last();
        lemma_set_up(codec, sample_rate, total, before);
        let was = encoder::run(start, before);
        let made = calls(start, before);
        encoder::law_encoding_stays_well_formed(was, event);
        lemma_made(made, was.due(), opening(codec, sample_rate, events));
        lemma_made(made, was.due(), resampling(codec, sample_rate, events));
        assert(was.rate() == rate_for(codec, sample_rate));
        if was.phase is OpenEncoder {
            assert(was.due() == opening(codec, sample_rate, events));
        }
        if was.phase is CreateResampler {
            assert(was.due() == resampling(codec, sample_rate, events));
        }
        assert(was.resamples() <==> !takes_directly(codec, sample_rate, before));
    }
}

/// The encoder is opened for one channel of the first format that it listed, at
/// the rate of the samples (Opus at 48 kHz), and frames go to it in that form.
/// Frames of 16-bit integers are sent directly only to an encoder that was opened
/// with packed 16-bit integers at the rate of the samples. For any other, frames
/// go through a resampler that was created before, to that format and rate.
pub proof fn law_frames_fit_the_encoder(
    codec: Codec,
    sample_rate: u32,
    total: usize,
    events: Seq<EncodeEvent>,
)
    requires
        total <= i64::MAX,
        encoder::runs(encoder::begun(codec, sample_rate, total), events),
        !(encoder::run(encoder::begun(codec, sample_rate, total), events).phase is Stopped),
    ensures
        ({
            let made = calls(encoder::begun(codec, sample_rate, total), events);
            match encoder::run(encoder::begun(codec, sample_rate, total), events).due() {
                EncodeAction::FindEncoder { codec: wanted } => wanted == codec,
                EncodeAction::OpenEncoder { rate, channels, format } => {
                    &&& rate == rate_for(codec, sample_rate)
                    &&& channels == 1
                    &&& format == listed(events)
                },
                EncodeAction::CreateResampler { from_rate, to_rate, channels, to_format } => {
                    &&& made.contains(opening(codec, sample_rate, events))
                    &&& !takes_directly(codec, sample_rate, events)
                    &&& from_rate == sample_rate
                    &&& to_rate == rate_for(codec, sample_rate)
                    &&& channels == 1
                    &&& to_format == listed(events)
                },
                EncodeAction::SendDirect { rate, channels, pts, length } => {
                    &&& made.contains(
                        EncodeAction::OpenEncoder {
                            rate: sample_rate,
                            channels: MONO,
                            format: SampleFormat::I16(Layout::Packed),
                        },
                    )
                    &&& rate == sample_rate
                    &&& channels == 1
                    &&& length <= asked_for(events)
                    &&& length < asked_for(events) ==> pts + length == total
                },
                EncodeAction::Resample { rate, channels, pts, length } => {
                    &&& !takes_directly(codec, sample_rate, events)
                    &&& made.contains(opening(codec, sample_rate, events))
                    &&& made.contains(resampling(codec, sample_rate, events))
                    &&& rate == sample_rate
                    &&& channels == 1
                    &&& length <= asked_for(events)
                    &&& length < asked_for(events) ==> pts + length == total
                },
                EncodeAction::WritePacket { stream, from, to } => stream == 0 && Some(to)
                    == told_time(events),
                _ => true,
            }
        }),
{
    let start = encoder::begun(codec, sample_rate, total);
    lemma_set_up(codec, sample_rate, total, events);
    lemma_total(start, events);
    let now = encoder::run(start, events);
    assert(now.rate() == rate_for(codec, sample_rate));
    assert(now.resamples() <==> !takes_directly(codec, sample_rate, events));
}

/// An encoding keeps the number of its samples.
proof fn lemma_total(start: EncodeState, events: Seq<EncodeEvent>)
    ensures
        encoder::run(start, events).total == start.total,
    decreases events.len(),
{
    if events.len() > 0 {
        lemma_total(start, events.drop_last());
    }
}

/// The samples that calls have named and not failed on, one frame after the
/// other.
pub open spec fn handed_over(
    samples: Seq<Sample>,
    state: EncodeState,
    events: Seq<EncodeEvent>,
) -> Seq<Sample>
    decreases events.len(),
{
    if events.len() == 0 {
        seq![]
    } else {
        let before = handed_over(samples, state, events.drop_last());
        if events.last() is Failed {
            before
        } else {
            match encoder::run(state, events.drop_last()).due() {
                EncodeAction::SendDirect { rate, channels, pts, length } => before
                    + samples.subrange(pts as int, pts + length),
                EncodeAction::Resample { rate, channels, pts, length } => before
                    + samples.subrange(pts as int, pts + length),
                _ => before,
            }
        }
    }
}

/// The calls name the samples that are taken over.
proof fn lemma_handed_over(
    samples: Seq<Sample>,
    codec: Codec,
    sample_rate: u32,
    total: usize,
    events: Seq<EncodeEvent>,
)
    requires
        samples.len() == total,
        total <= i64::MAX,
        encoder::runs(encoder::begun(codec, sample_rate, total), events),
        !(encoder::run(encoder::begun(codec, sample_rate, total), events).phase is Stopped),
    ensures
        handed_over(samples, encoder::begun(codec, sample_rate, total), events)
            == encoder::taken_over(samples, encoder::begun(codec, sample_rate, total), events),
    decreases events.len(),
{
    let start = encoder::begun(codec, sample_rate, total);
    if events.len() > 0 {
        let before = events.drop_last();
        lemma_handed_over(samples, codec, sample_rate, total, before);
        encoder::law_frames_are_the_samples(samples, codec, sample_rate, total, before);
    }
}

/// The calls for frames name the samples from the first on, each once and in
/// order. A frame is due as long as some are left; the end is told to the encoder
/// when all were named.
pub proof fn law_all_samples_are_handed_over(
    samples: Seq<Sample>,
    codec: Codec,
    sample_rate: u32,
    total: usize,
    events: Seq<EncodeEvent>,
)
    requires
        samples.len() == total,
        total <= i64::MAX,
        encoder::runs(encoder::begun(codec, sample_rate, total), events),
        !(encoder::run(encoder::begun(codec, sample_rate, total), events).phase is Stopped),
    ensures
        ({
            let handed = handed_over(samples, encoder::begun(codec, sample_rate, total), events);
            let due = encoder::run(encoder::begun(codec, sample_rate, total), events).due();
            &&& handed.len() <= total
            &&& handed == samples.take(handed.len() as int)
            &&& due matches EncodeAction::SendDirect { rate, channels, pts, length } ==> pts
                == handed.len() < total && 0 < length
            &&& due matches EncodeAction::Resample { rate, channels, pts, length } ==> pts
                == handed.len() < total && 0 < length
            &&& due is SendEof || due is WriteTrailer || due is ReadOutput || due is Finish
                ==> handed == samples
        }),
{
    encoder::law_frames_are_the_samples(samples, codec, sample_rate, total, events);
    lemma_handed_over(samples, codec, sample_rate, total, events);
    let now = encoder::run(encoder::begun(codec, sample_rate, total), events);
    let count = encoder::taken_count(now);
    assert(0 <= count <= total);
    assert(samples.take(count).len() == count);
}

/// When the encoder has no more packets, the trailer comes if the encoder was
/// told that there are no more samples, and only then.
pub proof fn law_trailer_comes_after_the_end(
    codec: Codec,
    sample_rate: u32,
    total: usize,
    events: Seq<EncodeEvent>,
)
    requires
        encoder::runs(encoder::begun(codec, sample_rate, total), events),
        encoder::run(encoder::begun(codec, sample_rate, total), events).due() is ReceivePacket,
    ensures
        ({
            let start = encoder::begun(codec, sample_rate, total);
            let made = calls(start, events);
            encoder::run(start, events).after(EncodeEvent::NoPacket).due() is WriteTrailer <==> (
            exists|k: int| 0 <= k < made.len() && (#[trigger] made[k]) is SendEof)
        }),
{
    let start = encoder::begun(codec, sample_rate, total);
    let made = calls(start, events);
    let now = encoder::run(start, events);
    let places = lemma_in_order(start, events);
    let is_eof = |call: EncodeAction| call is SendEof;
    if stage(now.phase) > 3 {
        assert(only_at(made, places.eof, is_eof));
        assert(is_eof(made[places.eof]));
        assert(made[places.eof] is SendEof);
    } else {
        assert(never(made, is_eof));
        assert forall|k: int| 0 <= k < made.len() implies !((#[trigger] made[k]) is SendEof) by {
            assert(!is_eof(made[k]));
        }
    }
}

/// Calls of the same kind: those that can fail the same way.
pub open spec fn same_kind(a: EncodeAction, b: EncodeAction) -> bool {
    match a {
        EncodeAction::Initialize => b is Initialize,
        EncodeAction::FindEncoder { codec } => b == a,
        EncodeAction::CreateFile => b is CreateFile,
        EncodeAction::OpenOutput => b is OpenOutput,
        EncodeAction::AddStream => b is AddStream,
        EncodeAction::CreateEncoder { global_header } => b is CreateEncoder,
        EncodeAction::OpenEncoder { rate, channels, format } => b is OpenEncoder,
        EncodeAction::SetParameters => b is SetParameters,
        EncodeAction::WriteHeader => b is WriteHeader,
        EncodeAction::CreateResampler { from_rate, to_rate, channels, to_format } => b
            is CreateResampler,
        EncodeAction::Resample { rate, channels, pts, length } => b is Resample,
        EncodeAction::SendResampled => b is SendResampled || b is SendDirect,
        EncodeAction::SendDirect { rate, channels, pts, length } => b is SendResampled || b
            is SendDirect,
        EncodeAction::ReceivePacket => false,
        EncodeAction::WritePacket { stream, from, to } => b is WritePacket,
        EncodeAction::SendEof => b is SendEof,
        EncodeAction::WriteTrailer => b is WriteTrailer,
        EncodeAction::ReadOutput => b is ReadOutput,
        EncodeAction::Finish => false,
    }
}

/// What a failure is called goes by the call that failed, and by nothing else.
pub proof fn law_same_call_same_failure(a: EncodeState, b: EncodeState)
    requires
        same_kind(a.due(), b.due()),
    ensures
        a.failure() == b.failure(),
{
}

/// The samples and the bytes of a frame are those that its call names.
pub proof fn law_frame_is_what_the_call_names(session: EncodeSession)
    requires
        session.well_formed(),
    ensures
        session.state.due() matches EncodeAction::SendDirect { rate, channels, pts, length }
            ==> session.frame() == session.samples@.subrange(pts as int, pts + length),
        session.state.due() matches EncodeAction::Resample { rate, channels, pts, length }
            ==> session.frame() == session.samples@.subrange(pts as int, pts + length),
{
}

/// What can come of a call.
pub open spec fn can_come_of(call: EncodeAction, event: EncodeEvent) -> bool {
    match event {
        EncodeEvent::Done => call is Initialize || call is CreateFile || call is OpenOutput || call
            is CreateEncoder || call is SetParameters || call is CreateResampler || call
            is SendResampled || call is SendDirect || call is WritePacket || call is SendEof || call
            is WriteTrailer,
        EncodeEvent::Failed(_) => !(call is FindEncoder || call is SetParameters || call
            is ReceivePacket || call is Finish),
        EncodeEvent::EncoderFound { preferred } => call is FindEncoder,
        EncodeEvent::Missing => call is FindEncoder || call is SetParameters,
        EncodeEvent::StreamAdded { global_header } => call is AddStream,
        EncodeEvent::EncoderOpened { frame_size } => call is OpenEncoder,
        EncodeEvent::HeaderWritten { time_base } => call is WriteHeader,
        EncodeEvent::Resampled { count } => call is Resample,
        EncodeEvent::Packet { size, time_base } => call is ReceivePacket,
        EncodeEvent::NoPacket => call is ReceivePacket,
        EncodeEvent::Read(_) => call is ReadOutput,
    }
}

/// What can come of the call that is due goes by the call, and by nothing else.
pub proof fn law_events_fit_calls(state: EncodeState, event: EncodeEvent)
    ensures
        state.accepts(event) <==> can_come_of(state.due(), event),
{
}

/// What the failure of a call is called.
pub open spec fn failure_of(call: EncodeAction) -> Seq<char> {
    match call {
        EncodeAction::Initialize => "Failed to initialize ffmpeg: "@,
        EncodeAction::FindEncoder { codec: Codec::Mp3 } => "Encoder not found for MP3"@,
        EncodeAction::FindEncoder { codec: Codec::Opus } => "Encoder not found for OPUS"@,
        EncodeAction::FindEncoder { codec: Codec::Aac } => "Encoder not found for AAC"@,
        EncodeAction::FindEncoder { codec: Codec::Flac } => "Encoder not found for FLAC"@,
        EncodeAction::CreateFile => "Failed to create output temp file: "@,
        EncodeAction::OpenOutput => "Failed to open output: "@,
        EncodeAction::AddStream => "Failed to add output stream: "@,
        EncodeAction::CreateEncoder { .. } => "Failed to create encoder: "@,
        EncodeAction::OpenEncoder { .. } => "Failed to open encoder: "@,
        EncodeAction::SetParameters => "No output stream found"@,
        EncodeAction::WriteHeader => "Failed to write output header: "@,
        EncodeAction::CreateResampler { .. } => "Failed to create resampler: "@,
        EncodeAction::Resample { .. } => "Resampler error: "@,
        EncodeAction::SendResampled => "Encoder send_frame error: "@,
        EncodeAction::SendDirect { .. } => "Encoder send_frame error: "@,
        EncodeAction::ReceivePacket => ""@,
        EncodeAction::WritePacket { .. } => "Failed to write packet: "@,
        EncodeAction::SendEof => "Encoder send_eof error: "@,
        EncodeAction::WriteTrailer => "Failed to write output trailer: "@,
        EncodeAction::ReadOutput => "Failed to read encoded output: "@,
        EncodeAction::Finish => ""@,
    }
}

/// A failure is called by the call that failed.
pub proof fn law_failures_name_the_call(state: EncodeState)
    ensures
        state.failure() == failure_of(state.due()),
{
}

/// Each compressed format has the codec of its name, and the others have none.
pub proof fn law_codec_is_that_of_the_format(format: ResponseFormat)
    ensures
        format is Mp3 <==> encoder::codec_of(format) == Some(Codec::Mp3),
        format is Opus <==> encoder::codec_of(format) == Some(Codec::Opus),
        format is Aac <==> encoder::codec_of(format) == Some(Codec::Aac),
        format is Flac <==> encoder::codec_of(format) == Some(Codec::Flac),
        format is Wav || format is Pcm <==> encoder::codec_of(format) is None,
{
}

} // verus!
