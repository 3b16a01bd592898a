//! The course of a conversion of any audio file to a WAV file.
//!
//! The conversion says which call is due; whoever drives it makes the call and
//! reports what came of it.

use crate::error::ApiError;
use crate::frame;
use crate::frame::DecodedFrame;
use crate::sample::Sample;
use crate::stretch;
use crate::wav;
use vstd::prelude::*;

verus! {

/// How far a conversion has come: the call that is due.
#[derive(Clone, Copy, PartialEq, Eq, Debug, Structural)]
pub enum ConvertPhase {
    CreateSource,
    WriteSource,
    CreateTarget,
    Initialize,
    OpenInput,
    FindStream,
    CreateContext,
    OpenDecoder,
    NextPacket,
    SendPacket,
    ReceiveFrame { flushing: bool },
    SendEof,
    Resample,
    Render,
    OpenTarget,
    WriteTarget,
    FinishTarget,
    ReadTarget,
    Finished,
    Stopped,
}

/// The state of a conversion, without its samples.
#[derive(Clone, Copy, PartialEq, Eq, Debug, Structural)]
pub struct ConvertState {
    pub target_rate: u32,
    pub phase: ConvertPhase,
    /// The index of the audio stream.
    pub stream: usize,
    /// The rate of the first frame.
    pub source_rate: Option<u32>,
    /// The number of channels of the first frame.
    pub source_channels: Option<u16>,
}

/// A call that a conversion needs.
#[derive(Clone, Copy, PartialEq, Eq, Debug, Structural)]
pub enum ConvertAction {
    /// Create the file that the media library reads, with the suffix.
    CreateSource,
    /// Write the audio to it.
    WriteSource,
    /// Create the file for the WAV file.
    CreateTarget,
    /// Initialise the media library.
    Initialize,
    /// Open the source as a container.
    OpenInput,
    /// Look up the best audio stream of the container.
    FindStream,
    /// Create a decoder's context from the stream's parameters.
    CreateContext,
    /// Open the decoder.
    OpenDecoder,
    /// Ask the container for a packet.
    NextPacket,
    /// Send the packet to the decoder.
    SendPacket,
    /// Ask the decoder for a frame.
    ReceiveFrame,
    /// Tell the decoder that there is no more.
    SendEof,
    /// Call [`Conversion::resample`].
    Resample,
    /// Call [`Conversion::render`].
    Render,
    /// Open the target for buffered writing.
    OpenTarget,
    /// Write the rendered WAV file to it.
    WriteTarget,
    /// Write out what is still buffered, and close it.
    FinishTarget,
    /// Read the target back.
    ReadTarget,
    /// Nothing is left to do.
    Finish,
}

/// What came of a call.
#[derive(Debug)]
pub enum ConvertEvent {
    /// The call did its work.
    Done,
    /// The call failed, for this cause.
    Failed(String),
    /// The audio stream has this index.
    StreamFound { index: usize },
    /// There is no audio stream.
    Missing,
    /// The container gave a packet of this stream.
    Packet { stream: usize },
    /// The container has no more packets.
    NoPacket,
    /// The decoder gave a frame.
    Frame(DecodedFrame),
    /// The decoder has no frame.
    NoFrame,
    /// The target holds these bytes.
    Read(Vec<u8>),
}

impl ConvertState {
    /// This state, in another phase.
    pub open spec fn at(self, phase: ConvertPhase) -> ConvertState {
        ConvertState { phase, ..self }
    }

    /// The call that is due.
    pub open spec fn due(self) -> ConvertAction {
        match self.phase {
            ConvertPhase::CreateSource => ConvertAction::CreateSource,
            ConvertPhase::WriteSource => ConvertAction::WriteSource,
            ConvertPhase::CreateTarget => ConvertAction::CreateTarget,
            ConvertPhase::Initialize => ConvertAction::Initialize,
            ConvertPhase::OpenInput => ConvertAction::OpenInput,
            ConvertPhase::FindStream => ConvertAction::FindStream,
            ConvertPhase::CreateContext => ConvertAction::CreateContext,
            ConvertPhase::OpenDecoder => ConvertAction::OpenDecoder,
            ConvertPhase::NextPacket => ConvertAction::NextPacket,
            ConvertPhase::SendPacket => ConvertAction::SendPacket,
            ConvertPhase::ReceiveFrame { flushing } => ConvertAction::ReceiveFrame,
            ConvertPhase::SendEof => ConvertAction::SendEof,
            ConvertPhase::Resample => ConvertAction::Resample,
            ConvertPhase::Render => ConvertAction::Render,
            ConvertPhase::OpenTarget => ConvertAction::OpenTarget,
            ConvertPhase::WriteTarget => ConvertAction::WriteTarget,
            ConvertPhase::FinishTarget => ConvertAction::FinishTarget,
            ConvertPhase::ReadTarget => ConvertAction::ReadTarget,
            ConvertPhase::Finished => ConvertAction::Finish,
            ConvertPhase::Stopped => ConvertAction::Finish,
        }
    }

    /// What can come of the call that is due.
    pub open spec fn accepts(self, event: ConvertEvent) -> bool {
        match self.phase {
            ConvertPhase::FindStream => event is StreamFound || event is Missing,
            ConvertPhase::NextPacket => event is Packet || event is NoPacket,
            ConvertPhase::ReceiveFrame { flushing } => event is NoFrame || (event matches
                ConvertEvent::Frame(f) && f.well_formed()),
            ConvertPhase::ReadTarget => event is Read || event is Failed,
            ConvertPhase::Resample => false,
            ConvertPhase::Render => false,
            ConvertPhase::Finished => false,
            ConvertPhase::Stopped => false,
            _ => event is Done || event is Failed,
        }
    }

    /// The state after what came of the call.
    pub open spec fn after(self, event: ConvertEvent) -> ConvertState {
        if event is Failed || event is Missing {
            self.at(ConvertPhase::Stopped)
        } else {
            match self.phase {
                ConvertPhase::CreateSource => self.at(ConvertPhase::WriteSource),
                ConvertPhase::WriteSource => self.at(ConvertPhase::CreateTarget),
                ConvertPhase::CreateTarget => self.at(ConvertPhase::Initialize),
                ConvertPhase::Initialize => self.at(ConvertPhase::OpenInput),
                ConvertPhase::OpenInput => self.at(ConvertPhase::FindStream),
                ConvertPhase::FindStream => ConvertState { stream: event->index, ..self }.at(
                    ConvertPhase::CreateContext,
                ),
                ConvertPhase::CreateContext => self.at(ConvertPhase::OpenDecoder),
                ConvertPhase::OpenDecoder => self.at(ConvertPhase::NextPacket),
                ConvertPhase::NextPacket => if event is NoPacket {
                    self.at(ConvertPhase::SendEof)
                } else if event->stream == self.stream {
                    self.at(ConvertPhase::SendPacket)
                } else {
                    self
                },
                ConvertPhase::SendPacket => self.at(ConvertPhase::ReceiveFrame { flushing: false }),
                ConvertPhase::ReceiveFrame { flushing } => match event {
                    ConvertEvent::Frame(f) => if self.source_rate is None {
                        ConvertState {
                            source_rate: Some(f.rate),
                            source_channels: Some(f.channels),
                            ..self
                        }
                    } else {
                        self
                    },
                    _ => if flushing {
                        self.at(ConvertPhase::Resample)
                    } else {
                        self.at(ConvertPhase::NextPacket)
                    },
                },
                ConvertPhase::SendEof => self.at(ConvertPhase::ReceiveFrame { flushing: true }),
                ConvertPhase::OpenTarget => self.at(ConvertPhase::WriteTarget),
                ConvertPhase::WriteTarget => self.at(ConvertPhase::FinishTarget),
                ConvertPhase::FinishTarget => self.at(ConvertPhase::ReadTarget),
                ConvertPhase::ReadTarget => self.at(ConvertPhase::Finished),
                _ => self,
            }
        }
    }

    /// What the failure of the call that is due is called; the cause follows
    /// where the event has one.
    pub open spec fn failure(self) -> Seq<char> {
        match self.phase {
            ConvertPhase::CreateSource => "Failed to create temp file: "@,
            ConvertPhase::WriteSource => "Failed to write temp file: "@,
            ConvertPhase::CreateTarget => "Failed to create WAV temp file: "@,
            ConvertPhase::Initialize => "Failed to initialize ffmpeg: "@,
            ConvertPhase::OpenInput => "Failed to open input: "@,
            ConvertPhase::FindStream => "No audio stream found in input"@,
            ConvertPhase::CreateContext => "Failed to create decoder context: "@,
            ConvertPhase::OpenDecoder => "Failed to open decoder: "@,
            ConvertPhase::SendPacket => "Decoder send_packet error: "@,
            ConvertPhase::SendEof => "Decoder send_eof error: "@,
            ConvertPhase::OpenTarget => "Failed to create WAV writer: "@,
            ConvertPhase::WriteTarget => "WAV write error: "@,
            ConvertPhase::FinishTarget => "WAV finalize error: "@,
            ConvertPhase::ReadTarget => "Failed to read WAV output: "@,
            _ => ""@,
        }
    }

    /// The rate of the decoded samples: that of the first frame.
    pub open spec fn rate(self) -> u32 {
        match self.source_rate {
            Some(rate) => rate,
            None => self.target_rate,
        }
    }

    /// The rate of the decoded samples.
    fn decoded_rate(&self) -> (r: u32)
        ensures
            r == self.rate(),
    {
        match self.source_rate {
            Some(rate) => rate,
            None => self.target_rate,
        }
    }

    /// What the failure of the call that is due is called.
    fn failed_step(&self) -> (r: &'static str)
        ensures
            r@ == self.failure(),
    {
        match self.phase {
            ConvertPhase::CreateSource => "Failed to create temp file: ",
            ConvertPhase::WriteSource => "Failed to write temp file: ",
            ConvertPhase::CreateTarget => "Failed to create WAV temp file: ",
            ConvertPhase::Initialize => "Failed to initialize ffmpeg: ",
            ConvertPhase::OpenInput => "Failed to open input: ",
            ConvertPhase::FindStream => "No audio stream found in input",
            ConvertPhase::CreateContext => "Failed to create decoder context: ",
            ConvertPhase::OpenDecoder => "Failed to open decoder: ",
            ConvertPhase::SendPacket => "Decoder send_packet error: ",
            ConvertPhase::SendEof => "Decoder send_eof error: ",
            ConvertPhase::OpenTarget => "Failed to create WAV writer: ",
            ConvertPhase::WriteTarget => "WAV write error: ",
            ConvertPhase::FinishTarget => "WAV finalize error: ",
            ConvertPhase::ReadTarget => "Failed to read WAV output: ",
            _ => "",
        }
    }

    /// The state after what came of the call, if it did not fail.
    fn step(self, event: &ConvertEvent) -> (r: ConvertState)
        requires
            self.accepts(*event),
            !(event is Failed) && !(event is Missing),
        ensures
            r == self.after(*event),
    {
        let phase = match self.phase {
            ConvertPhase::CreateSource => ConvertPhase::WriteSource,
            ConvertPhase::WriteSource => ConvertPhase::CreateTarget,
            ConvertPhase::CreateTarget => ConvertPhase::Initialize,
            ConvertPhase::Initialize => ConvertPhase::OpenInput,
            ConvertPhase::OpenInput => ConvertPhase::FindStream,
            ConvertPhase::FindStream => ConvertPhase::CreateContext,
            ConvertPhase::CreateContext => ConvertPhase::OpenDecoder,
            ConvertPhase::OpenDecoder => ConvertPhase::NextPacket,
            ConvertPhase::NextPacket => match event {
                ConvertEvent::Packet { stream } => if *stream == self.stream {
                    ConvertPhase::SendPacket
                } else {
                    ConvertPhase::NextPacket
                },
                _ => ConvertPhase::SendEof,
            },
            ConvertPhase::SendPacket => ConvertPhase::ReceiveFrame { flushing: false },
            ConvertPhase::ReceiveFrame { flushing } => match event {
                ConvertEvent::Frame(_) => ConvertPhase::ReceiveFrame { flushing },
                _ => if flushing {
                    ConvertPhase::Resample
                } else {
                    ConvertPhase::NextPacket
                },
            },
            ConvertPhase::SendEof => ConvertPhase::ReceiveFrame { flushing: true },
            ConvertPhase::OpenTarget => ConvertPhase::WriteTarget,
            ConvertPhase::WriteTarget => ConvertPhase::FinishTarget,
            ConvertPhase::FinishTarget => ConvertPhase::ReadTarget,
            ConvertPhase::ReadTarget => ConvertPhase::Finished,
            other => other,
        };
        match event {
            ConvertEvent::StreamFound { index } => ConvertState { phase, stream: *index, ..self },
            ConvertEvent::Frame(f) => if self.source_rate.is_none() {
                ConvertState {
                    phase,
                    source_rate: Some(f.rate),
                    source_channels: Some(f.channels),
                    ..self
                }
            } else {
                ConvertState { phase, ..self }
            },
            _ => ConvertState { phase, ..self },
        }
    }
}

/// A conversion: the audio, the suffix of the file that the media library is
/// to read it from, how far the conversion has come, the samples that it has
/// decoded, the WAV file that it has rendered of them, and its output: what was
/// read back of that file.
pub struct Conversion {
    pub audio: Vec<u8>,
    pub suffix: String,
    pub state: ConvertState,
    pub decoded: Vec<Sample>,
    pub rendered: Vec<u8>,
    pub output: Vec<u8>,
}

/// The output after an event: what was read back.
pub open spec fn output_after(output: Seq<u8>, event: ConvertEvent) -> Seq<u8> {
    match event {
        ConvertEvent::Read(bytes) => bytes@,
        _ => output,
    }
}

/// The samples after an event: a frame adds its own, as one channel.
pub open spec fn decoded_after(decoded: Seq<Sample>, event: ConvertEvent) -> Seq<Sample> {
    match event {
        ConvertEvent::Frame(f) => decoded + f.mono(),
        _ => decoded,
    }
}

/// The state in which a conversion begins.
pub open spec fn begun(target_rate: u32) -> ConvertState {
    ConvertState {
        target_rate,
        phase: ConvertPhase::CreateSource,
        stream: 0,
        source_rate: None,
        source_channels: None,
    }
}

/// Begins the conversion of the bytes of an audio file to a WAV file (mono,
/// `target_rate` Hz, 16 bits).
pub fn convert_audio_to_wav_bytes(audio_bytes: &[u8], suffix: &str, target_rate: u32) -> (r:
    Conversion)
    ensures
        r.audio@ == audio_bytes@,
        r.suffix@ == suffix@,
        r.state == begun(target_rate),
        r.decoded@ == Seq::<Sample>::empty(),
        r.rendered@ == Seq::<u8>::empty(),
        r.output@ == Seq::<u8>::empty(),
{
    Conversion {
        audio: vstd::slice::slice_to_vec(audio_bytes),
        suffix: String::from_str(suffix),
        state: ConvertState {
            target_rate,
            phase: ConvertPhase::CreateSource,
            stream: 0,
            source_rate: None,
            source_channels: None,
        },
        decoded: Vec::new(),
        rendered: Vec::new(),
        output: Vec::new(),
    }
}

impl Conversion {
    /// The decoded samples can be brought to the target rate in one
    /// allocation.
    pub open spec fn resamples(self) -> bool {
        self.state.rate() == self.state.target_rate || stretch::resampled_length(
            self.decoded@.len(),
            self.state.rate(),
            self.state.target_rate,
        ) <= stretch::allocation_limit()
    }

    /// The call that is due.
    pub fn action(&self) -> (r: ConvertAction)
        ensures
            r == self.state.due(),
    {
        match self.state.phase {
            ConvertPhase::CreateSource => ConvertAction::CreateSource,
            ConvertPhase::WriteSource => ConvertAction::WriteSource,
            ConvertPhase::CreateTarget => ConvertAction::CreateTarget,
            ConvertPhase::Initialize => ConvertAction::Initialize,
            ConvertPhase::OpenInput => ConvertAction::OpenInput,
            ConvertPhase::FindStream => ConvertAction::FindStream,
            ConvertPhase::CreateContext => ConvertAction::CreateContext,
            ConvertPhase::OpenDecoder => ConvertAction::OpenDecoder,
            ConvertPhase::NextPacket => ConvertAction::NextPacket,
            ConvertPhase::SendPacket => ConvertAction::SendPacket,
            ConvertPhase::ReceiveFrame { .. } => ConvertAction::ReceiveFrame,
            ConvertPhase::SendEof => ConvertAction::SendEof,
            ConvertPhase::Resample => ConvertAction::Resample,
            ConvertPhase::Render => ConvertAction::Render,
            ConvertPhase::OpenTarget => ConvertAction::OpenTarget,
            ConvertPhase::WriteTarget => ConvertAction::WriteTarget,
            ConvertPhase::FinishTarget => ConvertAction::FinishTarget,
            ConvertPhase::ReadTarget => ConvertAction::ReadTarget,
            ConvertPhase::Finished => ConvertAction::Finish,
            ConvertPhase::Stopped => ConvertAction::Finish,
        }
    }

    /// Whether this can come of the call that is due.
    pub fn is_expected(&self, event: &ConvertEvent) -> (r: bool)
        ensures
            r == self.state.accepts(*event),
    {
        match self.state.phase {
            ConvertPhase::FindStream => matches!(event, ConvertEvent::StreamFound { .. })
                || matches!(event, ConvertEvent::Missing),
            ConvertPhase::NextPacket => matches!(event, ConvertEvent::Packet { .. })
                || matches!(event, ConvertEvent::NoPacket),
            ConvertPhase::ReceiveFrame { .. } => match event {
                ConvertEvent::Frame(f) => f.is_well_formed(),
                ConvertEvent::NoFrame => true,
                _ => false,
            },
            ConvertPhase::ReadTarget => matches!(event, ConvertEvent::Read(_))
                || matches!(event, ConvertEvent::Failed(_)),
            ConvertPhase::Resample => false,
            ConvertPhase::Render => false,
            ConvertPhase::Finished => false,
            ConvertPhase::Stopped => false,
            _ => matches!(event, ConvertEvent::Done) || matches!(event, ConvertEvent::Failed(_)),
        }
    }

    /// Goes on by what came of the call that was due. A frame is added to the
    /// decoded samples. A failure ends the conversion, with the step that
    /// failed and its cause.
    pub fn advance(&mut self, event: ConvertEvent) -> (r: Result<(), ApiError>)
        requires
            old(self).state.accepts(event),
        ensures
            final(self).audio == old(self).audio,
            final(self).suffix == old(self).suffix,
            final(self).rendered == old(self).rendered,
            final(self).state == old(self).state.after(event),
            final(self).decoded@ == decoded_after(old(self).decoded@, event),
            final(self).output@ == output_after(old(self).output@, event),
            r is Err <==> event is Failed || event is Missing,
            r matches Err(e) ==> e.text() == match event {
                ConvertEvent::Failed(cause) => old(self).state.failure() + cause@,
                _ => old(self).state.failure(),
            },
    {
        let step = self.state.failed_step();
        match event {
            ConvertEvent::Failed(cause) => {
                self.state = ConvertState { phase: ConvertPhase::Stopped, ..self.state };
                Err(ApiError::failed(step, cause.as_str()))
            },
            ConvertEvent::Missing => {
                self.state = ConvertState { phase: ConvertPhase::Stopped, ..self.state };
                Err(ApiError::internal(String::from_str(step)))
            },
            other => {
                self.state = self.state.step(&other);
                match other {
                    ConvertEvent::Frame(f) => frame::append_mono(&f, &mut self.decoded),
                    ConvertEvent::Read(bytes) => self.output = bytes,
                    _ => {},
                }
                Ok(())
            },
        }
    }

    /// Whether the decoded samples can be brought to the target rate in one
    /// allocation.
    pub fn can_resample(&self) -> (r: bool)
        ensures
            r == self.resamples(),
    {
        let from = self.state.decoded_rate();
        let to = self.state.target_rate;
        from == to || stretch::length_at_rate(self.decoded.len(), from, to) <= isize::MAX as usize
            / 4
    }

    /// Brings the decoded samples to the target rate. That there are none is an
    /// error.
    pub fn resample(&mut self) -> (r: Result<(), ApiError>)
        requires
            old(self).state.phase is Resample,
            old(self).decoded@.len() > 0 ==> old(self).resamples(),
        ensures
            final(self).audio == old(self).audio,
            final(self).suffix == old(self).suffix,
            final(self).rendered == old(self).rendered,
            final(self).output == old(self).output,
            r is Err <==> old(self).decoded@.len() == 0,
            r matches Err(e) ==> {
                &&& e.text() == "No audio samples decoded from input"@
                &&& final(self).state == old(self).state.at(ConvertPhase::Stopped)
                &&& final(self).decoded@ == old(self).decoded@
            },
            r is Ok ==> {
                &&& final(self).state == old(self).state.at(ConvertPhase::Render)
                &&& final(self).decoded@ == stretch::resampled(
                    old(self).decoded@,
                    old(self).state.rate(),
                    old(self).state.target_rate,
                )
            },
            r is Ok && old(self).state.source_rate is Some ==> final(self).decoded@
                == stretch::resampled(
                old(self).decoded@,
                old(self).state.source_rate->0,
                old(self).state.target_rate,
            ),
    {
        if self.decoded.len() == 0 {
            self.state = ConvertState { phase: ConvertPhase::Stopped, ..self.state };
            return Err(
                ApiError::internal(String::from_str("No audio samples decoded from input")),
            );
        }
        let from = self.state.decoded_rate();
        let to = self.state.target_rate;
        self.decoded = stretch::resample(self.decoded.as_slice(), from, to);
        self.state = ConvertState { phase: ConvertPhase::Render, ..self.state };
        Ok(())
    }

    /// Whether a WAV file can tell its sizes and its rates.
    pub fn can_render(&self) -> (r: bool)
        ensures
            r == wav::representable(self.decoded@.len(), self.state.target_rate),
    {
        wav::is_representable(self.decoded.len(), self.state.target_rate)
    }

    /// Writes the samples as a WAV file of the target rate.
    pub fn render(&mut self) -> (r: Result<(), ApiError>)
        requires
            old(self).state.phase is Render,
            wav::representable(old(self).decoded@.len(), old(self).state.target_rate),
        ensures
            final(self).audio == old(self).audio,
            final(self).suffix == old(self).suffix,
            final(self).decoded@ == old(self).decoded@,
            final(self).output == old(self).output,
            final(self).state == old(self).state.at(
                if r is Ok {
                    ConvertPhase::OpenTarget
                } else {
                    ConvertPhase::Stopped
                },
            ),
            r is Err ==> final(self).rendered == old(self).rendered,
            wav::is_written(
                match r {
                    Ok(_) => Ok(final(self).rendered),
                    Err(e) => Err(e),
                },
                old(self).decoded@,
                old(self).state.target_rate,
                "Failed to create WAV writer: "@,
            ),
    {
        match wav::write_wav(
            self.decoded.as_slice(),
            self.state.target_rate,
            "Failed to create WAV writer: ",
        ) {
            Ok(bytes) => {
                self.rendered = bytes;
                self.state = ConvertState { phase: ConvertPhase::OpenTarget, ..self.state };
                Ok(())
            },
            Err(e) => {
                self.state = ConvertState { phase: ConvertPhase::Stopped, ..self.state };
                Err(e)
            },
        }
    }
}

/// The state after a row of events.
pub open spec fn run(state: ConvertState, events: Seq<ConvertEvent>) -> ConvertState
    decreases events.len(),
{
    if events.len() == 0 {
        state
    } else {
        run(state, events.drop_last()).after(events.last())
    }
}

/// Every event of the row can come of the call that was due before it.
pub open spec fn runs(state: ConvertState, events: Seq<ConvertEvent>) -> bool
    decreases events.len(),
{
    events.len() > 0 ==> {
        &&& runs(state, events.drop_last())
        &&& run(state, events.drop_last()).accepts(events.last())
    }
}

/// The samples that a row of events leaves behind.
pub open spec fn decoded_in(events: Seq<ConvertEvent>) -> Seq<Sample>
    decreases events.len(),
{
    if events.len() == 0 {
        seq![]
    } else {
        decoded_after(decoded_in(events.drop_last()), events.last())
    }
}

/// The frames among events, in their order.
pub open spec fn frames_in(events: Seq<ConvertEvent>) -> Seq<DecodedFrame>
    decreases events.len(),
{
    if events.len() == 0 {
        seq![]
    } else {
        match events.last() {
            ConvertEvent::Frame(f) => frames_in(events.drop_last()).push(f),
            _ => frames_in(events.drop_last()),
        }
    }
}

/// The rate and the number of channels that a conversion takes its samples to
/// have are those of the first frame.
pub proof fn law_first_frame_sets_rate(target_rate: u32, events: Seq<ConvertEvent>)
    requires
        runs(begun(target_rate), events),
    ensures
        ({
            let now = run(begun(target_rate), events);
            let frames = frames_in(events);
            &&& now.target_rate == target_rate
            &&& frames.len() == 0 ==> now.source_rate is None && now.source_channels is None
            &&& frames.len() > 0 ==> now.source_rate == Some(frames[0].rate)
                && now.source_channels == Some(frames[0].channels)
        }),
    decreases events.len(),
{
    if events.len() > 0 {
        law_first_frame_sets_rate(target_rate, events.drop_last());
    }
}

/// The decoded samples are those of all frames as one channel, frame after
/// frame.
pub proof fn law_decoded_is_all_frames(events: Seq<ConvertEvent>)
    ensures
        decoded_in(events) == frames_in(events).map_values(|f: DecodedFrame| f.mono()).flatten(),
    decreases events.len(),
{
    let each = |f: DecodedFrame| f.mono();
    let frames = frames_in(events);
    if events.len() == 0 {
        assert(frames.map_values(each) =~= seq![]);
        assert(decoded_in(events) =~= frames.map_values(each).flatten());
    } else {
        law_decoded_is_all_frames(events.drop_last());
        if let ConvertEvent::Frame(f) = events.last() {
            let before = frames_in(events.drop_last());
            assert(frames.map_values(each) =~= before.map_values(each).push(f.mono()));
            before.map_values(each).lemma_flatten_push(f.mono());
        }
    }
}

/// Only packets of the audio stream reach the decoder.
pub proof fn law_other_streams_are_skipped(state: ConvertState, event: ConvertEvent)
    requires
        state.phase is NextPacket,
        state.accepts(event),
        state.after(event).phase is SendPacket,
    ensures
        event matches ConvertEvent::Packet { stream } && stream == state.stream,
{
}

/// A conversion that failed takes no more events.
pub proof fn law_failure_is_final(state: ConvertState, failure: ConvertEvent, event: ConvertEvent)
    requires
        failure is Failed || failure is Missing,
    ensures
        !state.after(failure).accepts(event),
{
}

/// The output that a row of events leaves behind.
pub open spec fn output_in(events: Seq<ConvertEvent>) -> Seq<u8>
    decreases events.len(),
{
    if events.len() == 0 {
        seq![]
    } else {
        output_after(output_in(events.drop_last()), events.last())
    }
}

/// Once the WAV file is rendered, the output is what was read back of it, all of
/// it and nothing else; a conversion that has not come so far, or that failed,
/// has none.
pub proof fn law_output_is_what_was_read(state: ConvertState, events: Seq<ConvertEvent>)
    requires
        state.phase is OpenTarget,
        runs(state, events),
    ensures
        run(state, events).phase is Finished ==> events.len() > 0 && (events.last() matches
            ConvertEvent::Read(bytes) && output_in(events) == bytes@),
        !(run(state, events).phase is Finished) ==> output_in(events) == Seq::<u8>::empty(),
        run(state, events).phase is Stopped ==> events.len() > 0 && events.last() is Failed,
{
    lemma_writing(state, events);
}

/// The phases after rendering, and the output in each.
proof fn lemma_writing(state: ConvertState, events: Seq<ConvertEvent>)
    requires
        state.phase is OpenTarget,
        runs(state, events),
    ensures
        ({
            let now = run(state, events);
            &&& now.phase is OpenTarget || now.phase is WriteTarget || now.phase is FinishTarget
                || now.phase is ReadTarget || now.phase is Finished || now.phase is Stopped
            &&& now.phase is Finished ==> events.len() > 0 && (events.last() matches
                ConvertEvent::Read(bytes) && output_in(events) == bytes@)
            &&& !(now.phase is Finished) ==> output_in(events) == Seq::<u8>::empty()
            &&& now.phase is Stopped ==> events.len() > 0 && events.last() is Failed
        }),
    decreases events.len(),
{
    if events.len() > 0 {
        lemma_writing(state, events.drop_last());
    }
}

} // verus!
