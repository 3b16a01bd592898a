//! Laws of the steps of a conversion: which call follows which, what reaches the
//! decoder, and what failures are called.

use crate::convert;
use crate::convert::ConvertAction;
use crate::convert::ConvertEvent;
use crate::convert::ConvertPhase;
use crate::convert::ConvertState;
use crate::frame::DecodedFrame;
use crate::media::Layout;
use crate::media::SampleFormat;
use vstd::prelude::*;

verus! {

/// A call of this kind is what comes next after a call and what came of it.
pub open spec fn follows(call: ConvertAction, event: ConvertEvent, next: ConvertAction) -> bool {
    if event is Failed || event is Missing {
        next is Finish
    } else {
        match call {
            ConvertAction::CreateSource => next is WriteSource,
            ConvertAction::WriteSource => next is CreateTarget,
            ConvertAction::CreateTarget => next is Initialize,
            ConvertAction::Initialize => next is OpenInput,
            ConvertAction::OpenInput => next is FindStream,
            ConvertAction::FindStream => next is CreateContext,
            ConvertAction::CreateContext => next is OpenDecoder,
            ConvertAction::OpenDecoder => next is NextPacket,
            ConvertAction::NextPacket => if event is Packet {
                next is SendPacket || next is NextPacket
            } else {
                next is SendEof
            },
            ConvertAction::SendPacket => next is ReceiveFrame,
            ConvertAction::ReceiveFrame => if event is Frame {
                next is ReceiveFrame
            } else {
                next is NextPacket || next is Resample
            },
            ConvertAction::SendEof => next is ReceiveFrame,
            ConvertAction::OpenTarget => next is WriteTarget,
            ConvertAction::WriteTarget => next is FinishTarget,
            ConvertAction::FinishTarget => next is ReadTarget,
            ConvertAction::ReadTarget => next is Finish,
            ConvertAction::Resample => false,
            ConvertAction::Render => false,
            ConvertAction::Finish => false,
        }
    }
}

/// Which call comes next goes by the last call and what came of it.
pub proof fn law_calls_follow_each_other(state: ConvertState, event: ConvertEvent)
    requires
        state.accepts(event),
    ensures
        follows(state.due(), event, state.after(event).due()),
{
}

/// The index of the audio stream that was found.
pub open spec fn found(events: Seq<ConvertEvent>) -> Option<usize>
    decreases events.len(),
{
    if events.len() == 0 {
        None
    } else {
        match events.last() {
            ConvertEvent::StreamFound { index } => Some(index),
            _ => found(events.drop_last()),
        }
    }
}

/// The container has told that it has no more packets.
pub open spec fn exhausted(events: Seq<ConvertEvent>) -> bool
    decreases events.len(),
{
    events.len() > 0 && (events.last() is NoPacket || exhausted(events.drop_last()))
}

/// How the state of a conversion goes with what came of its calls.
spec fn goes_with(now: ConvertState, events: Seq<ConvertEvent>) -> bool {
    match now.phase {
        ConvertPhase::CreateSource => !exhausted(events),
        ConvertPhase::WriteSource => !exhausted(events),
        ConvertPhase::CreateTarget => !exhausted(events),
        ConvertPhase::Initialize => !exhausted(events),
        ConvertPhase::OpenInput => !exhausted(events),
        ConvertPhase::FindStream => !exhausted(events),
        ConvertPhase::CreateContext => !exhausted(events) && found(events) == Some(now.stream),
        ConvertPhase::OpenDecoder => !exhausted(events) && found(events) == Some(now.stream),
        ConvertPhase::NextPacket => !exhausted(events) && found(events) == Some(now.stream),
        ConvertPhase::SendPacket => !exhausted(events) && found(events) == Some(now.stream),
        ConvertPhase::ReceiveFrame { flushing } => (flushing <==> exhausted(events)) && found(
            events,
        ) == Some(now.stream),
        ConvertPhase::SendEof => exhausted(events) && found(events) == Some(now.stream),
        ConvertPhase::Resample => exhausted(events) && found(events) == Some(now.stream),
        ConvertPhase::Stopped => true,
        _ => false,
    }
}

/// The state of a conversion goes with what came of its calls.
proof fn lemma_goes_with(target_rate: u32, events: Seq<ConvertEvent>)
    requires
        convert::runs(convert::begun(target_rate), events),
    ensures
        goes_with(convert::run(convert::begun(target_rate), events), events),
    decreases events.len(),
{
    if events.len() > 0 {
        lemma_goes_with(target_rate, events.drop_last());
    }
}

/// Each packet of the stream that was found goes to the decoder, and no other
/// packet does. When the decoder has no more frames, the next packet is asked
/// for, unless the container has told that it has none: then decoding is over,
/// and not before.
pub proof fn law_the_found_stream_is_decoded(
    target_rate: u32,
    events: Seq<ConvertEvent>,
    stream: usize,
)
    requires
        convert::runs(convert::begun(target_rate), events),
    ensures
        ({
            let now = convert::run(convert::begun(target_rate), events);
            &&& now.due() is NextPacket ==> (now.after(
                ConvertEvent::Packet { stream },
            ).due() is SendPacket <==> found(events) == Some(stream))
            &&& now.due() is ReceiveFrame ==> (now.after(
                ConvertEvent::NoFrame,
            ).due() is Resample <==> exhausted(events))
            &&& now.due() is Resample ==> exhausted(events)
        }),
{
    lemma_goes_with(target_rate, events);
}

/// What a failure is called goes by the call that failed, and by nothing else.
pub proof fn law_same_call_same_failure(a: ConvertState, b: ConvertState)
    requires
        a.due() == b.due(),
        !(a.due() is Finish),
    ensures
        a.failure() == b.failure(),
{
}

/// What can come of a call. A frame has to have the planes that are read.
pub open spec fn can_come_of(call: ConvertAction, event: ConvertEvent) -> bool {
    let plain = !(call is FindStream || call is NextPacket || call is ReceiveFrame || call
        is Resample || call is Render || call is Finish);
    match event {
        ConvertEvent::Done => plain && !(call is ReadTarget),
        ConvertEvent::Failed(_) => plain,
        ConvertEvent::StreamFound { index } => call is FindStream,
        ConvertEvent::Missing => call is FindStream,
        ConvertEvent::Packet { stream } => call is NextPacket,
        ConvertEvent::NoPacket => call is NextPacket,
        ConvertEvent::Frame(f) => call is ReceiveFrame && planes_exist(f),
        ConvertEvent::NoFrame => call is ReceiveFrame,
        ConvertEvent::Read(_) => call is ReadTarget,
    }
}

/// The planes of a frame that hold samples of its channels exist: one for all
/// channels if they are packed, else one for each.
pub open spec fn planes_exist(f: DecodedFrame) -> bool {
    forall|i: int, channel: int|
        #![trigger f.sample(i, channel)]
        0 <= i < f.samples && 0 <= channel < f.channels ==> match f.format {
            SampleFormat::Unknown => true,
            SampleFormat::U8(Layout::Packed)
            | SampleFormat::I16(Layout::Packed)
            | SampleFormat::I32(Layout::Packed)
            | SampleFormat::I64(Layout::Packed)
            | SampleFormat::Single(Layout::Packed)
            | SampleFormat::Double(Layout::Packed) => 0 < f.planes@.len(),
            _ => channel < f.planes@.len(),
        }
}

/// What can come of the call that is due goes by the call, and by nothing else.
pub proof fn law_events_fit_calls(state: ConvertState, event: ConvertEvent)
    ensures
        state.accepts(event) <==> can_come_of(state.due(), event),
{
    if let ConvertEvent::Frame(f) = event {
        if f.samples > 0 && f.channels > 0 {
            let x = f.sample(0, f.channels - 1);
        }
    }
}

/// What the failure of a call is called.
pub open spec fn failure_of(call: ConvertAction) -> Seq<char> {
    match call {
        ConvertAction::CreateSource => "Failed to create temp file: "@,
        ConvertAction::WriteSource => "Failed to write temp file: "@,
        ConvertAction::CreateTarget => "Failed to create WAV temp file: "@,
        ConvertAction::Initialize => "Failed to initialize ffmpeg: "@,
        ConvertAction::OpenInput => "Failed to open input: "@,
        ConvertAction::FindStream => "No audio stream found in input"@,
        ConvertAction::CreateContext => "Failed to create decoder context: "@,
        ConvertAction::OpenDecoder => "Failed to open decoder: "@,
        ConvertAction::NextPacket => ""@,
        ConvertAction::SendPacket => "Decoder send_packet error: "@,
        ConvertAction::ReceiveFrame => ""@,
        ConvertAction::SendEof => "Decoder send_eof error: "@,
        ConvertAction::Resample => ""@,
        ConvertAction::Render => ""@,
        ConvertAction::OpenTarget => "Failed to create WAV writer: "@,
        ConvertAction::WriteTarget => "WAV write error: "@,
        ConvertAction::FinishTarget => "WAV finalize error: "@,
        ConvertAction::ReadTarget => "Failed to read WAV output: "@,
        ConvertAction::Finish => ""@,
    }
}

/// A failure is called by the call that failed.
pub proof fn law_failures_name_the_call(state: ConvertState)
    ensures
        state.failure() == failure_of(state.due()),
{
}

} // verus!
