//! The course of an encoding by a media library.
//!
//! The session says which call is due; whoever drives it makes the call and
//! reports what came of it.

use crate::config::ResponseFormat;
use crate::error::ApiError;
use crate::media::Layout;
use crate::media::SampleFormat;
use crate::media::TimeBase;
use crate::media::FIRST_STREAM;
use crate::media::MONO;
use crate::pcm;
use crate::sample::Sample;
use crate::stretch;
use vstd::arithmetic::div_mod::*;
use vstd::prelude::*;

verus! {

/// A codec that only the media library has.
#[derive(Clone, Copy, PartialEq, Eq, Debug, Structural)]
pub enum Codec {
    Mp3,
    Opus,
    Aac,
    Flac,
}

/// The codec of a response format, if it needs one.
pub open spec fn codec_of(format: ResponseFormat) -> Option<Codec> {
    match format {
        ResponseFormat::Mp3 => Some(Codec::Mp3),
        ResponseFormat::Opus => Some(Codec::Opus),
        ResponseFormat::Aac => Some(Codec::Aac),
        ResponseFormat::Flac => Some(Codec::Flac),
        ResponseFormat::Wav => None,
        ResponseFormat::Pcm => None,
    }
}

/// The codec of a response format, if it needs one.
pub fn find_codec(format: ResponseFormat) -> (r: Option<Codec>)
    ensures
        r == codec_of(format),
{
    match format {
        ResponseFormat::Mp3 => Some(Codec::Mp3),
        ResponseFormat::Opus => Some(Codec::Opus),
        ResponseFormat::Aac => Some(Codec::Aac),
        ResponseFormat::Flac => Some(Codec::Flac),
        ResponseFormat::Wav => None,
        ResponseFormat::Pcm => None,
    }
}

/// Opus runs at 48 kHz only; the other codecs take the rate of the samples.
pub open spec fn encoder_rate(codec: Codec, sample_rate: u32) -> u32 {
    if codec is Opus {
        48000
    } else {
        sample_rate
    }
}

/// How far an encoding has come: the call that is due.
#[derive(Clone, Copy, PartialEq, Eq, Debug, Structural)]
pub enum EncodePhase {
    Initialize,
    FindEncoder,
    CreateFile,
    OpenOutput,
    AddStream,
    CreateEncoder { global_header: bool },
    OpenEncoder,
    SetParameters,
    WriteHeader,
    CreateResampler,
    Frame,
    SendResampled,
    ReceivePacket { flushing: bool },
    WritePacket { flushing: bool, from: TimeBase },
    SendEof,
    WriteTrailer,
    ReadOutput,
    Finished,
    Stopped,
}

/// The state of an encoding.
#[derive(Clone, Copy, PartialEq, Eq, Debug, Structural)]
pub struct EncodeState {
    pub codec: Codec,
    pub sample_rate: u32,
    /// The number of samples to encode.
    pub total: usize,
    pub phase: EncodePhase,
    /// What the encoder takes.
    pub format: SampleFormat,
    /// The most samples that one frame holds.
    pub frame_size: usize,
    /// The first sample of the frame in work.
    pub offset: usize,
    /// The time base of the first stream, once the header is written.
    pub time_base: TimeBase,
}

/// A call to the media library.
#[derive(Clone, Copy, PartialEq, Eq, Debug, Structural)]
pub enum EncodeAction {
    /// Initialise the library.
    Initialize,
    /// Look the encoder of a codec up.
    FindEncoder { codec: Codec },
    /// Create the file that the output goes to.
    CreateFile,
    /// Open that file as a container.
    OpenOutput,
    /// Add a stream for the encoder to the container.
    AddStream,
    /// Create the encoder's context, with a global header if so asked.
    CreateEncoder { global_header: bool },
    /// Open the encoder.
    OpenEncoder { rate: u32, channels: u16, format: SampleFormat },
    /// Give the encoder's parameters to the stream.
    SetParameters,
    /// Write the container's header.
    WriteHeader,
    /// Create a resampler from packed singles to the encoder's format.
    CreateResampler { from_rate: u32, to_rate: u32, channels: u16, to_format: SampleFormat },
    /// Resample the frame of singles that is in work.
    Resample { rate: u32, channels: u16, pts: i64, length: usize },
    /// Send what the resampler gave to the encoder.
    SendResampled,
    /// Send the frame of 16-bit integers that is in work to the encoder.
    SendDirect { rate: u32, channels: u16, pts: i64, length: usize },
    /// Ask the encoder for a packet.
    ReceivePacket,
    /// Put the packet into a stream, bring its times from one time base to
    /// another, and write it to the container.
    WritePacket { stream: usize, from: TimeBase, to: TimeBase },
    /// Tell the encoder that there is no more.
    SendEof,
    /// Write the container's trailer.
    WriteTrailer,
    /// Read the file back.
    ReadOutput,
    /// Nothing is left to do.
    Finish,
}

/// What came of a call.
#[derive(Debug)]
pub enum EncodeEvent {
    /// The call did its work.
    Done,
    /// The call failed, for this cause.
    Failed(String),
    /// There is such an encoder; the first sample format that it lists.
    EncoderFound { preferred: Option<SampleFormat> },
    /// There is no such encoder, or no such stream.
    Missing,
    /// The stream was added; whether the container wants a global header.
    StreamAdded { global_header: bool },
    /// The encoder was opened; how many samples it wants in a frame, zero for
    /// any number.
    EncoderOpened { frame_size: u32 },
    /// The resampler gave this many samples.
    Resampled { count: usize },
    /// The header was written; the time base of the first stream.
    HeaderWritten { time_base: TimeBase },
    /// The encoder gave a packet of this size, with times in this base.
    Packet { size: usize, time_base: TimeBase },
    /// The encoder has no packet.
    NoPacket,
    /// The file holds these bytes.
    Read(Vec<u8>),
}

impl EncodeState {
    /// The encoder's rate.
    pub open spec fn rate(self) -> u32 {
        encoder_rate(self.codec, self.sample_rate)
    }

    /// The samples need a resampler unless the encoder takes 16-bit integers
    /// at their own rate.
    pub open spec fn resamples(self) -> bool {
        self.sample_rate != self.rate() || self.format != SampleFormat::I16(Layout::Packed)
    }

    /// How many samples the frame in work has.
    pub open spec fn frame_length(self) -> int {
        if self.frame_size < self.total - self.offset {
            self.frame_size as int
        } else {
            self.total - self.offset
        }
    }

    /// A frame is in work.
    pub open spec fn in_frame(self) -> bool {
        match self.phase {
            EncodePhase::Frame => true,
            EncodePhase::SendResampled => true,
            EncodePhase::ReceivePacket { flushing } => !flushing,
            EncodePhase::WritePacket { flushing, from } => !flushing,
            _ => false,
        }
    }

    /// All frames are done.
    pub open spec fn past_frames(self) -> bool {
        match self.phase {
            EncodePhase::ReceivePacket { flushing } => flushing,
            EncodePhase::WritePacket { flushing, from } => flushing,
            EncodePhase::SendEof => true,
            EncodePhase::WriteTrailer => true,
            EncodePhase::ReadOutput => true,
            EncodePhase::Finished => true,
            _ => false,
        }
    }

    /// What holds in every state.
    pub open spec fn well_formed(self) -> bool {
        &&& self.total <= i64::MAX
        &&& self.offset <= self.total
        &&& self.frame_size > 0
        &&& self.in_frame() ==> self.offset < self.total
        &&& self.past_frames() ==> self.offset == self.total
        &&& !self.in_frame() && !self.past_frames() && self.phase != EncodePhase::Stopped
            ==> self.offset == 0
        &&& self.phase is SendResampled ==> self.resamples()
    }

    /// This state, in another phase.
    pub open spec fn at(self, phase: EncodePhase) -> EncodeState {
        EncodeState { phase, ..self }
    }

    /// The next frame is due, or the end if there is none.
    pub open spec fn at_frames(self) -> EncodeState {
        if self.offset < self.total {
            self.at(EncodePhase::Frame)
        } else {
            self.at(EncodePhase::SendEof)
        }
    }

    /// The frame in work is done.
    pub open spec fn past_frame(self) -> EncodeState {
        EncodeState { offset: (self.offset + self.frame_length()) as usize, ..self }.at_frames()
    }

    /// The call that is due.
    pub open spec fn due(self) -> EncodeAction {
        match self.phase {
            EncodePhase::Initialize => EncodeAction::Initialize,
            EncodePhase::FindEncoder => EncodeAction::FindEncoder { codec: self.codec },
            EncodePhase::CreateFile => EncodeAction::CreateFile,
            EncodePhase::OpenOutput => EncodeAction::OpenOutput,
            EncodePhase::AddStream => EncodeAction::AddStream,
            EncodePhase::CreateEncoder { global_header } => EncodeAction::CreateEncoder {
                global_header,
            },
            EncodePhase::OpenEncoder => EncodeAction::OpenEncoder {
                rate: self.rate(),
                channels: MONO,
                format: self.format,
            },
            EncodePhase::SetParameters => EncodeAction::SetParameters,
            EncodePhase::WriteHeader => EncodeAction::WriteHeader,
            EncodePhase::CreateResampler => EncodeAction::CreateResampler {
                from_rate: self.sample_rate,
                to_rate: self.rate(),
                channels: MONO,
                to_format: self.format,
            },
            EncodePhase::Frame => if self.resamples() {
                EncodeAction::Resample {
                    rate: self.sample_rate,
                    channels: MONO,
                    pts: self.offset as i64,
                    length: self.frame_length() as usize,
                }
            } else {
                EncodeAction::SendDirect {
                    rate: self.rate(),
                    channels: MONO,
                    pts: self.offset as i64,
                    length: self.frame_length() as usize,
                }
            },
            EncodePhase::SendResampled => EncodeAction::SendResampled,
            EncodePhase::ReceivePacket { flushing } => EncodeAction::ReceivePacket,
            EncodePhase::WritePacket { flushing, from } => EncodeAction::WritePacket {
                stream: FIRST_STREAM,
                from,
                to: self.time_base,
            },
            EncodePhase::SendEof => EncodeAction::SendEof,
            EncodePhase::WriteTrailer => EncodeAction::WriteTrailer,
            EncodePhase::ReadOutput => EncodeAction::ReadOutput,
            EncodePhase::Finished => EncodeAction::Finish,
            EncodePhase::Stopped => EncodeAction::Finish,
        }
    }

    /// What can come of the call that is due.
    pub open spec fn accepts(self, event: EncodeEvent) -> bool {
        match self.phase {
            EncodePhase::FindEncoder => event is EncoderFound || event is Missing,
            EncodePhase::AddStream => event is StreamAdded || event is Failed,
            EncodePhase::OpenEncoder => event is EncoderOpened || event is Failed,
            EncodePhase::SetParameters => event is Done || event is Missing,
            EncodePhase::Frame => if self.resamples() {
                event is Resampled || event is Failed
            } else {
                event is Done || event is Failed
            },
            EncodePhase::WriteHeader => event is HeaderWritten || event is Failed,
            EncodePhase::ReceivePacket { flushing } => event is Packet || event is NoPacket,
            EncodePhase::ReadOutput => event is Read || event is Failed,
            EncodePhase::Finished => false,
            EncodePhase::Stopped => false,
            _ => event is Done || event is Failed,
        }
    }

    /// The state after what came of the call.
    pub open spec fn after(self, event: EncodeEvent) -> EncodeState {
        if event is Failed || event is Missing {
            self.at(EncodePhase::Stopped)
        } else {
            match self.phase {
                EncodePhase::Initialize => self.at(EncodePhase::FindEncoder),
                EncodePhase::FindEncoder => EncodeState {
                    format: match event {
                        EncodeEvent::EncoderFound { preferred: Some(format) } => format,
                        _ => SampleFormat::I16(Layout::Packed),
                    },
                    ..self
                }.at(EncodePhase::CreateFile),
                EncodePhase::CreateFile => self.at(EncodePhase::OpenOutput),
                EncodePhase::OpenOutput => self.at(EncodePhase::AddStream),
                EncodePhase::AddStream => self.at(
                    EncodePhase::CreateEncoder { global_header: event->global_header },
                ),
                EncodePhase::CreateEncoder { global_header } => self.at(EncodePhase::OpenEncoder),
                EncodePhase::OpenEncoder => EncodeState {
                    frame_size: if event->frame_size > 0 {
                        event->frame_size as usize
                    } else {
                        1024
                    },
                    ..self
                }.at(EncodePhase::SetParameters),
                EncodePhase::SetParameters => self.at(EncodePhase::WriteHeader),
                EncodePhase::WriteHeader => {
                    let told = EncodeState {
                        time_base: match event {
                            EncodeEvent::HeaderWritten { time_base } => time_base,
                            _ => self.time_base,
                        },
                        ..self
                    };
                    if told.resamples() {
                        told.at(EncodePhase::CreateResampler)
                    } else {
                        told.at_frames()
                    }
                },
                EncodePhase::CreateResampler => self.at_frames(),
                EncodePhase::Frame => if !self.resamples() {
                    self.at(EncodePhase::ReceivePacket { flushing: false })
                } else if event->count > 0 {
                    self.at(EncodePhase::SendResampled)
                } else {
                    self.past_frame()
                },
                EncodePhase::SendResampled => self.at(EncodePhase::ReceivePacket { flushing: false }),
                EncodePhase::ReceivePacket { flushing } => match event {
                    EncodeEvent::Packet { size, time_base } => if size == 0 {
                        self
                    } else {
                        self.at(EncodePhase::WritePacket { flushing, from: time_base })
                    },
                    _ => if flushing {
                        self.at(EncodePhase::WriteTrailer)
                    } else {
                        self.past_frame()
                    },
                },
                EncodePhase::WritePacket { flushing, from } => self.at(
                    EncodePhase::ReceivePacket { flushing },
                ),
                EncodePhase::SendEof => self.at(EncodePhase::ReceivePacket { flushing: true }),
                EncodePhase::WriteTrailer => self.at(EncodePhase::ReadOutput),
                EncodePhase::ReadOutput => self.at(EncodePhase::Finished),
                EncodePhase::Finished => self,
                EncodePhase::Stopped => self,
            }
        }
    }

    /// What the failure of the call that is due is called; the cause follows
    /// where the event has one.
    pub open spec fn failure(self) -> Seq<char> {
        match self.phase {
            EncodePhase::Initialize => "Failed to initialize ffmpeg: "@,
            EncodePhase::FindEncoder => match self.codec {
                Codec::Mp3 => "Encoder not found for MP3"@,
                Codec::Opus => "Encoder not found for OPUS"@,
                Codec::Aac => "Encoder not found for AAC"@,
                Codec::Flac => "Encoder not found for FLAC"@,
            },
            EncodePhase::CreateFile => "Failed to create output temp file: "@,
            EncodePhase::OpenOutput => "Failed to open output: "@,
            EncodePhase::AddStream => "Failed to add output stream: "@,
            EncodePhase::CreateEncoder { global_header } => "Failed to create encoder: "@,
            EncodePhase::OpenEncoder => "Failed to open encoder: "@,
            EncodePhase::SetParameters => "No output stream found"@,
            EncodePhase::WriteHeader => "Failed to write output header: "@,
            EncodePhase::CreateResampler => "Failed to create resampler: "@,
            EncodePhase::Frame => if self.resamples() {
                "Resampler error: "@
            } else {
                "Encoder send_frame error: "@
            },
            EncodePhase::SendResampled => "Encoder send_frame error: "@,
            EncodePhase::WritePacket { flushing, from } => "Failed to write packet: "@,
            EncodePhase::SendEof => "Encoder send_eof error: "@,
            EncodePhase::WriteTrailer => "Failed to write output trailer: "@,
            EncodePhase::ReadOutput => "Failed to read encoded output: "@,
            _ => ""@,
        }
    }

    /// The encoder's rate.
    fn own_rate(&self) -> (r: u32)
        ensures
            r == self.rate(),
    {
        match self.codec {
            Codec::Opus => 48000,
            _ => self.sample_rate,
        }
    }

    /// Whether the samples need a resampler.
    fn needs_resampler(&self) -> (r: bool)
        ensures
            r == self.resamples(),
    {
        self.sample_rate != self.own_rate() || self.format != SampleFormat::I16(Layout::Packed)
    }

    /// How many samples the frame in work has.
    fn length(&self) -> (r: usize)
        requires
            self.well_formed(),
        ensures
            r == self.frame_length(),
    {
        let left = self.total - self.offset;
        if self.frame_size < left {
            self.frame_size
        } else {
            left
        }
    }

    /// The next frame is due, or the end if there is none.
    fn frames_due(self) -> (r: EncodeState)
        ensures
            r == self.at_frames(),
    {
        if self.offset < self.total {
            EncodeState { phase: EncodePhase::Frame, ..self }
        } else {
            EncodeState { phase: EncodePhase::SendEof, ..self }
        }
    }

    /// The frame in work is done.
    fn frame_done(self) -> (r: EncodeState)
        requires
            self.well_formed(),
        ensures
            r == self.past_frame(),
    {
        let offset = self.offset + self.length();
        EncodeState { offset, ..self }.frames_due()
    }

    /// What the failure of the call that is due is called.
    fn failed_step(&self) -> (r: &'static str)
        ensures
            r@ == self.failure(),
    {
        match self.phase {
            EncodePhase::Initialize => "Failed to initialize ffmpeg: ",
            EncodePhase::FindEncoder => match self.codec {
                Codec::Mp3 => "Encoder not found for MP3",
                Codec::Opus => "Encoder not found for OPUS",
                Codec::Aac => "Encoder not found for AAC",
                Codec::Flac => "Encoder not found for FLAC",
            },
            EncodePhase::CreateFile => "Failed to create output temp file: ",
            EncodePhase::OpenOutput => "Failed to open output: ",
            EncodePhase::AddStream => "Failed to add output stream: ",
            EncodePhase::CreateEncoder { .. } => "Failed to create encoder: ",
            EncodePhase::OpenEncoder => "Failed to open encoder: ",
            EncodePhase::SetParameters => "No output stream found",
            EncodePhase::WriteHeader => "Failed to write output header: ",
            EncodePhase::CreateResampler => "Failed to create resampler: ",
            EncodePhase::Frame => if self.needs_resampler() {
                "Resampler error: "
            } else {
                "Encoder send_frame error: "
            },
            EncodePhase::SendResampled => "Encoder send_frame error: ",
            EncodePhase::WritePacket { .. } => "Failed to write packet: ",
            EncodePhase::SendEof => "Encoder send_eof error: ",
            EncodePhase::WriteTrailer => "Failed to write output trailer: ",
            EncodePhase::ReadOutput => "Failed to read encoded output: ",
            _ => "",
        }
    }

    /// The state after what came of the call, if it did not fail.
    fn step(self, event: &EncodeEvent) -> (r: EncodeState)
        requires
            self.well_formed(),
            self.accepts(*event),
            !(event is Failed) && !(event is Missing),
        ensures
            r == self.after(*event),
            r.well_formed(),
    {
        match self.phase {
            EncodePhase::Initialize => EncodeState { phase: EncodePhase::FindEncoder, ..self },
            EncodePhase::FindEncoder => {
                let format = match event {
                    EncodeEvent::EncoderFound { preferred: Some(format) } => *format,
                    _ => SampleFormat::I16(Layout::Packed),
                };
                EncodeState { format, phase: EncodePhase::CreateFile, ..self }
            },
            EncodePhase::CreateFile => EncodeState { phase: EncodePhase::OpenOutput, ..self },
            EncodePhase::OpenOutput => EncodeState { phase: EncodePhase::AddStream, ..self },
            EncodePhase::AddStream => {
                let global_header = match event {
                    EncodeEvent::StreamAdded { global_header } => *global_header,
                    _ => false,
                };
                EncodeState { phase: EncodePhase::CreateEncoder { global_header }, ..self }
            },
            EncodePhase::CreateEncoder { .. } => EncodeState {
                phase: EncodePhase::OpenEncoder,
                ..self
            },
            EncodePhase::OpenEncoder => {
                let wanted = match event {
                    EncodeEvent::EncoderOpened { frame_size } => *frame_size,
                    _ => 0,
                };
                let frame_size: usize = if wanted > 0 {
                    wanted as usize
                } else {
                    1024
                };
                EncodeState { frame_size, phase: EncodePhase::SetParameters, ..self }
            },
            EncodePhase::SetParameters => EncodeState { phase: EncodePhase::WriteHeader, ..self },
            EncodePhase::WriteHeader => {
                let time_base = match event {
                    EncodeEvent::HeaderWritten { time_base } => *time_base,
                    _ => self.time_base,
                };
                let told = EncodeState { time_base, ..self };
                if told.needs_resampler() {
                    EncodeState { phase: EncodePhase::CreateResampler, ..told }
                } else {
                    told.frames_due()
                }
            },
            EncodePhase::CreateResampler => self.frames_due(),
            EncodePhase::Frame => if !self.needs_resampler() {
                EncodeState { phase: EncodePhase::ReceivePacket { flushing: false }, ..self }
            } else {
                match event {
                    EncodeEvent::Resampled { count } if *count > 0 => EncodeState {
                        phase: EncodePhase::SendResampled,
                        ..self
                    },
                    _ => self.frame_done(),
                }
            },
            EncodePhase::SendResampled => EncodeState {
                phase: EncodePhase::ReceivePacket { flushing: false },
                ..self
            },
            EncodePhase::ReceivePacket { flushing } => match event {
                EncodeEvent::Packet { size, time_base } => if *size == 0 {
                    self
                } else {
                    EncodeState {
                        phase: EncodePhase::WritePacket { flushing, from: *time_base },
                        ..self
                    }
                },
                _ => if flushing {
                    EncodeState { phase: EncodePhase::WriteTrailer, ..self }
                } else {
                    self.frame_done()
                },
            },
            EncodePhase::WritePacket { flushing, .. } => EncodeState {
                phase: EncodePhase::ReceivePacket { flushing },
                ..self
            },
            EncodePhase::SendEof => EncodeState {
                phase: EncodePhase::ReceivePacket { flushing: true },
                ..self
            },
            EncodePhase::WriteTrailer => EncodeState { phase: EncodePhase::ReadOutput, ..self },
            EncodePhase::ReadOutput => EncodeState { phase: EncodePhase::Finished, ..self },
            EncodePhase::Finished => self,
            EncodePhase::Stopped => self,
        }
    }
}

/// An encoding: its samples, how far it has come, and its output: what was read
/// back of the encoded file.
pub struct EncodeSession {
    pub samples: Vec<Sample>,
    pub state: EncodeState,
    pub output: Vec<u8>,
}

impl EncodeSession {
    /// The state is one of an encoding of the samples.
    pub open spec fn well_formed(self) -> bool {
        &&& self.state.well_formed()
        &&& self.state.total == self.samples@.len()
    }

    /// The samples of the frame in work.
    pub open spec fn frame(self) -> Seq<Sample> {
        self.samples@.subrange(
            self.state.offset as int,
            self.state.offset + self.state.frame_length(),
        )
    }

    /// Begins an encoding.
    pub fn start(samples: &[Sample], sample_rate: u32, codec: Codec) -> (r: EncodeSession)
        requires
            samples@.len() <= i64::MAX,
        ensures
            r.well_formed(),
            r.samples@ == samples@,
            r.output@ == Seq::<u8>::empty(),
            r.state == begun(codec, sample_rate, samples.len()),
    {
        EncodeSession {
            samples: stretch::copied(samples),
            state: EncodeState {
                codec,
                sample_rate,
                total: samples.len(),
                phase: EncodePhase::Initialize,
                format: SampleFormat::I16(Layout::Packed),
                frame_size: 1024,
                offset: 0,
                time_base: TimeBase { numerator: 0, denominator: 1 },
            },
            output: Vec::new(),
        }
    }

    /// The call that is due.
    pub fn action(&self) -> (r: EncodeAction)
        requires
            self.well_formed(),
        ensures
            r == self.state.due(),
    {
        let state = self.state;
        match state.phase {
            EncodePhase::Initialize => EncodeAction::Initialize,
            EncodePhase::FindEncoder => EncodeAction::FindEncoder { codec: state.codec },
            EncodePhase::CreateFile => EncodeAction::CreateFile,
            EncodePhase::OpenOutput => EncodeAction::OpenOutput,
            EncodePhase::AddStream => EncodeAction::AddStream,
            EncodePhase::CreateEncoder { global_header } => EncodeAction::CreateEncoder {
                global_header,
            },
            EncodePhase::OpenEncoder => EncodeAction::OpenEncoder {
                rate: state.own_rate(),
                channels: MONO,
                format: state.format,
            },
            EncodePhase::SetParameters => EncodeAction::SetParameters,
            EncodePhase::WriteHeader => EncodeAction::WriteHeader,
            EncodePhase::CreateResampler => EncodeAction::CreateResampler {
                from_rate: state.sample_rate,
                to_rate: state.own_rate(),
                channels: MONO,
                to_format: state.format,
            },
            EncodePhase::Frame => {
                let pts = state.offset as i64;
                let length = state.length();
                if state.needs_resampler() {
                    EncodeAction::Resample { rate: state.sample_rate, channels: MONO, pts, length }
                } else {
                    EncodeAction::SendDirect { rate: state.own_rate(), channels: MONO, pts, length }
                }
            },
            EncodePhase::SendResampled => EncodeAction::SendResampled,
            EncodePhase::ReceivePacket { .. } => EncodeAction::ReceivePacket,
            EncodePhase::WritePacket { from, .. } => EncodeAction::WritePacket {
                stream: FIRST_STREAM,
                from,
                to: state.time_base,
            },
            EncodePhase::SendEof => EncodeAction::SendEof,
            EncodePhase::WriteTrailer => EncodeAction::WriteTrailer,
            EncodePhase::ReadOutput => EncodeAction::ReadOutput,
            EncodePhase::Finished => EncodeAction::Finish,
            EncodePhase::Stopped => EncodeAction::Finish,
        }
    }

    /// The samples of the frame in work.
    pub fn frame_samples(&self) -> (r: Vec<Sample>)
        requires
            self.well_formed(),
            self.state.in_frame(),
        ensures
            r@ == self.frame(),
    {
        let first = self.state.offset;
        let end = first + self.state.length();
        stretch::copied(&self.samples.as_slice()[first..end])
    }

    /// The frame in work as 16-bit integers, the low byte of each first.
    pub fn frame_bytes(&self) -> (r: Vec<u8>)
        requires
            self.well_formed(),
            self.state.in_frame(),
        ensures
            r@ == pcm::le_bytes(pcm::amplitudes(self.frame())),
    {
        let first = self.state.offset;
        let end = first + self.state.length();
        pcm::encode_pcm(&self.samples.as_slice()[first..end])
    }

    /// Whether this can come of the call that is due.
    pub fn is_expected(&self, event: &EncodeEvent) -> (r: bool)
        ensures
            r == self.state.accepts(*event),
    {
        let done = matches!(event, EncodeEvent::Done);
        let failed = matches!(event, EncodeEvent::Failed(_));
        let missing = matches!(event, EncodeEvent::Missing);
        match self.state.phase {
            EncodePhase::FindEncoder => missing
                || matches!(event, EncodeEvent::EncoderFound { .. }),
            EncodePhase::AddStream => failed || matches!(event, EncodeEvent::StreamAdded { .. }),
            EncodePhase::OpenEncoder => failed
                || matches!(event, EncodeEvent::EncoderOpened { .. }),
            EncodePhase::SetParameters => done || missing,
            EncodePhase::Frame => if self.state.needs_resampler() {
                failed || matches!(event, EncodeEvent::Resampled { .. })
            } else {
                done || failed
            },
            EncodePhase::WriteHeader => failed
                || matches!(event, EncodeEvent::HeaderWritten { .. }),
            EncodePhase::ReceivePacket { .. } => matches!(event, EncodeEvent::Packet { .. })
                || matches!(event, EncodeEvent::NoPacket),
            EncodePhase::ReadOutput => failed || matches!(event, EncodeEvent::Read(_)),
            EncodePhase::Finished => false,
            EncodePhase::Stopped => false,
            _ => done || failed,
        }
    }

    /// Goes on by what came of the call that was due. A failure ends the
    /// encoding, with the step that failed and its cause.
    pub fn advance(&mut self, event: EncodeEvent) -> (r: Result<(), ApiError>)
        requires
            old(self).well_formed(),
            old(self).state.accepts(event),
        ensures
            final(self).well_formed(),
            final(self).samples == old(self).samples,
            final(self).output@ == output_after(old(self).output@, event),
            final(self).state == old(self).state.after(event),
            r is Err <==> event is Failed || event is Missing,
            r matches Err(e) ==> e.text() == match event {
                EncodeEvent::Failed(cause) => old(self).state.failure() + cause@,
                _ => old(self).state.failure(),
            },
    {
        let step = self.state.failed_step();
        match event {
            EncodeEvent::Failed(cause) => {
                self.state = EncodeState { phase: EncodePhase::Stopped, ..self.state };
                Err(ApiError::failed(step, cause.as_str()))
            },
            EncodeEvent::Missing => {
                self.state = EncodeState { phase: EncodePhase::Stopped, ..self.state };
                Err(ApiError::internal(String::from_str(step)))
            },
            other => {
                self.state = self.state.step(&other);
                if let EncodeEvent::Read(bytes) = other {
                    self.output = bytes;
                }
                Ok(())
            },
        }
    }
}

/// The output after an event: what was read back.
pub open spec fn output_after(output: Seq<u8>, event: EncodeEvent) -> Seq<u8> {
    match event {
        EncodeEvent::Read(bytes) => bytes@,
        _ => output,
    }
}

/// The state in which an encoding begins.
pub open spec fn begun(codec: Codec, sample_rate: u32, total: usize) -> EncodeState {
    EncodeState {
        codec,
        sample_rate,
        total,
        phase: EncodePhase::Initialize,
        format: SampleFormat::I16(Layout::Packed),
        frame_size: 1024,
        offset: 0,
        time_base: TimeBase { numerator: 0, denominator: 1 },
    }
}

/// The state after a row of events.
pub open spec fn run(state: EncodeState, events: Seq<EncodeEvent>) -> EncodeState
    decreases events.len(),
{
    if events.len() == 0 {
        state
    } else {
        run(state, events.drop_last()).after(events.last())
    }
}

/// Every event of the row can come of the call that was due before it.
pub open spec fn runs(state: EncodeState, events: Seq<EncodeEvent>) -> bool
    decreases events.len(),
{
    events.len() > 0 ==> {
        &&& runs(state, events.drop_last())
        &&& run(state, events.drop_last()).accepts(events.last())
    }
}

/// The samples of all frames that calls have taken over in the course of a row
/// of events, one frame after the other.
pub open spec fn taken_over(
    samples: Seq<Sample>,
    state: EncodeState,
    events: Seq<EncodeEvent>,
) -> Seq<Sample>
    decreases events.len(),
{
    if events.len() == 0 {
        seq![]
    } else {
        let before = run(state, events.drop_last());
        let taken = taken_over(samples, state, events.drop_last());
        if before.phase is Frame && !(events.last() is Failed) {
            taken + samples.subrange(before.offset as int, before.offset + before.frame_length())
        } else {
            taken
        }
    }
}

/// How many samples have been taken over in a state.
pub open spec fn taken_count(state: EncodeState) -> int {
    if state.in_frame() && !(state.phase is Frame) {
        state.offset + state.frame_length()
    } else {
        state.offset as int
    }
}

/// What holds in every state, any event keeps.
pub proof fn law_encoding_stays_well_formed(state: EncodeState, event: EncodeEvent)
    requires
        state.well_formed(),
        state.accepts(event),
    ensures
        state.after(event).well_formed(),
{
}

/// Only the call for a frame takes samples over.
proof fn lemma_taken_step(state: EncodeState, event: EncodeEvent)
    requires
        state.well_formed(),
        state.accepts(event),
        !(event is Failed) && !(event is Missing),
    ensures
        state.after(event).well_formed(),
        state.after(event).total == state.total,
        taken_count(state.after(event)) == if state.phase is Frame {
            state.offset + state.frame_length()
        } else {
            taken_count(state)
        },
{
}

/// While an encoding goes on, the calls have taken over the first samples, each
/// once and in order; the presentation time of the next frame is their number.
/// When the last frame is done they have taken over all of them.
pub proof fn law_frames_are_the_samples(
    samples: Seq<Sample>,
    codec: Codec,
    sample_rate: u32,
    total: usize,
    events: Seq<EncodeEvent>,
)
    requires
        samples.len() == total,
        total <= i64::MAX,
        runs(begun(codec, sample_rate, total), events),
        !(run(begun(codec, sample_rate, total), events).phase is Stopped),
    ensures
        ({
            let now = run(begun(codec, sample_rate, total), events);
            let taken = taken_over(samples, begun(codec, sample_rate, total), events);
            &&& now.well_formed()
            &&& now.total == total
            &&& taken == samples.take(taken_count(now))
            &&& now.phase is Frame ==> taken.len() == now.offset
            &&& now.past_frames() ==> taken == samples
        }),
    decreases events.len(),
{
    let start = begun(codec, sample_rate, total);
    let now = run(start, events);
    let taken = taken_over(samples, start, events);
    if events.len() == 0 {
        assert(taken =~= samples.take(0));
    } else {
        let before = run(start, events.drop_last());
        law_frames_are_the_samples(samples, codec, sample_rate, total, events.drop_last());
        lemma_taken_step(before, events.last());
        if before.phase is Frame {
            let end = before.offset + before.frame_length();
            let sofar = taken_over(samples, start, events.drop_last());
            assert(sofar + samples.subrange(before.offset as int, end) =~= samples.take(end));
        }
    }
    if now.past_frames() {
        assert(samples.take(total as int) =~= samples);
    }
}

/// A frame is never empty and never holds more than the encoder takes; only
/// the last one may hold less.
pub proof fn law_frames_are_full(state: EncodeState)
    requires
        state.well_formed(),
        state.in_frame(),
    ensures
        0 < state.frame_length() <= state.frame_size,
        state.frame_length() < state.frame_size ==> state.offset + state.frame_length()
            == state.total,
{
}

/// An encoding that failed takes no more events.
pub proof fn law_failure_is_final(state: EncodeState, failure: EncodeEvent, event: EncodeEvent)
    requires
        failure is Failed || failure is Missing,
    ensures
        !state.after(failure).accepts(event),
{
}

/// The frames that calls have taken over in the course of a row of events.
pub open spec fn frames_taken(
    samples: Seq<Sample>,
    state: EncodeState,
    events: Seq<EncodeEvent>,
) -> Seq<Seq<Sample>>
    decreases events.len(),
{
    if events.len() == 0 {
        seq![]
    } else {
        let before = run(state, events.drop_last());
        let frames = frames_taken(samples, state, events.drop_last());
        if before.phase is Frame && !(events.last() is Failed) {
            frames.push(
                samples.subrange(before.offset as int, before.offset + before.frame_length()),
            )
        } else {
            frames
        }
    }
}

/// The `k`th frame of samples cut into frames of one size: the last may be
/// shorter.
pub open spec fn cut(samples: Seq<Sample>, size: nat, k: nat) -> Seq<Sample> {
    let first = k * size;
    if first + size < samples.len() {
        samples.subrange(first as int, (first + size) as int)
    } else {
        samples.subrange(first as int, samples.len() as int)
    }
}

/// In this state, `k` frames have been taken over, and all of them but the
/// last were full.
spec fn has_cut(state: EncodeState, k: nat) -> bool {
    let size = state.frame_size as int;
    if state.phase is Frame {
        state.offset == k * size
    } else if state.in_frame() {
        k > 0 && state.offset == (k - 1) * size
    } else if state.past_frames() {
        if state.total == 0 {
            k == 0
        } else {
            k > 0 && (k - 1) * size < state.total <= k * size
        }
    } else {
        k == 0
    }
}

/// Only the call for a frame adds to the frames.
proof fn lemma_cut_step(state: EncodeState, event: EncodeEvent, k: nat)
    requires
        state.well_formed(),
        state.accepts(event),
        !(event is Failed) && !(event is Missing),
        has_cut(state, k),
    ensures
        state.after(event).well_formed(),
        state.after(event).total == state.total,
        k > 0 || state.phase is Frame ==> state.after(event).frame_size == state.frame_size,
        has_cut(
            state.after(event),
            if state.phase is Frame {
                k + 1
            } else {
                k
            },
        ),
{
    let size = state.frame_size as int;
    assert((k + 1) * size == k * size + size && (k - 1) * size == k * size - size)
        by (nonlinear_arith);
    assert(0 * (state.after(event).frame_size as int) == 0);
}

/// The frames of an encoding are the samples, cut at the encoder's frame size:
/// the `k`th begins `k` frame sizes after the first, which is its presentation
/// time, and when the last is done there are as many as it takes to hold all
/// samples.
pub proof fn law_frames_are_cut_evenly(
    samples: Seq<Sample>,
    codec: Codec,
    sample_rate: u32,
    total: usize,
    events: Seq<EncodeEvent>,
)
    requires
        samples.len() == total,
        total <= i64::MAX,
        runs(begun(codec, sample_rate, total), events),
        !(run(begun(codec, sample_rate, total), events).phase is Stopped),
    ensures
        ({
            let now = run(begun(codec, sample_rate, total), events);
            let frames = frames_taken(samples, begun(codec, sample_rate, total), events);
            let size = now.frame_size as nat;
            &&& forall|k: int| 0 <= k < frames.len() ==> #[trigger] frames[k] == cut(
                samples,
                size,
                k as nat,
            )
            &&& now.phase is Frame ==> {
                let next = cut(samples, size, frames.len());
                &&& next == samples.subrange(now.offset as int, now.offset + now.frame_length())
                &&& now.due() == if now.resamples() {
                    EncodeAction::Resample {
                        rate: sample_rate,
                        channels: MONO,
                        pts: (frames.len() * size) as i64,
                        length: next.len() as usize,
                    }
                } else {
                    EncodeAction::SendDirect {
                        rate: sample_rate,
                        channels: MONO,
                        pts: (frames.len() * size) as i64,
                        length: next.len() as usize,
                    }
                }
            }
            &&& now.past_frames() ==> frames.len() == (total + size - 1) / (size as int)
        }),
{
    let start = begun(codec, sample_rate, total);
    let now = run(start, events);
    let frames = frames_taken(samples, start, events);
    lemma_frames_cut(samples, codec, sample_rate, total, events);
    let size = now.frame_size as int;
    let k = frames.len();
    if now.past_frames() {
        if total == 0 {
            lemma_basic_div(size - 1, size);
        } else {
            assert((k - 1) * size + size == k * size) by (nonlinear_arith);
            lemma_fundamental_div_mod_converse(
                total + size - 1,
                size,
                k as int,
                total + size - 1 - k * size,
            );
        }
    }
}

/// What the law on the frames comes from, step by step.
proof fn lemma_frames_cut(
    samples: Seq<Sample>,
    codec: Codec,
    sample_rate: u32,
    total: usize,
    events: Seq<EncodeEvent>,
)
    requires
        samples.len() == total,
        total <= i64::MAX,
        runs(begun(codec, sample_rate, total), events),
        !(run(begun(codec, sample_rate, total), events).phase is Stopped),
    ensures
        ({
            let now = run(begun(codec, sample_rate, total), events);
            let frames = frames_taken(samples, begun(codec, sample_rate, total), events);
            &&& now.well_formed()
            &&& now.total == total
            &&& now.codec == codec
            &&& now.sample_rate == sample_rate
            &&& has_cut(now, frames.len())
            &&& forall|k: int| 0 <= k < frames.len() ==> #[trigger] frames[k] == cut(
                samples,
                now.frame_size as nat,
                k as nat,
            )
        }),
    decreases events.len(),
{
    let start = begun(codec, sample_rate, total);
    if events.len() > 0 {
        let before = run(start, events.drop_last());
        let sofar = frames_taken(samples, start, events.drop_last());
        lemma_frames_cut(samples, codec, sample_rate, total, events.drop_last());
        lemma_cut_step(before, events.last(), sofar.len());
    }
}

/// The bytes of all frames that calls have taken over as 16-bit integers.
pub open spec fn bytes_taken(
    samples: Seq<Sample>,
    state: EncodeState,
    events: Seq<EncodeEvent>,
) -> Seq<u8> {
    frames_taken(samples, state, events).map_values(
        |frame: Seq<Sample>| pcm::le_bytes(pcm::amplitudes(frame)),
    ).flatten()
}

/// The frames that calls have taken over are, one after the other, the samples
/// taken over; as 16-bit integers their bytes are the raw PCM of these.
proof fn lemma_frames_join(samples: Seq<Sample>, state: EncodeState, events: Seq<EncodeEvent>)
    ensures
        frames_taken(samples, state, events).flatten() == taken_over(samples, state, events),
        bytes_taken(samples, state, events) == pcm::le_bytes(
            pcm::amplitudes(taken_over(samples, state, events)),
        ),
    decreases events.len(),
{
    let each = |frame: Seq<Sample>| pcm::le_bytes(pcm::amplitudes(frame));
    let frames = frames_taken(samples, state, events);
    if events.len() == 0 {
        assert(frames.map_values(each) =~= seq![]);
        assert(pcm::le_bytes(pcm::amplitudes(seq![])) =~= seq![]);
        assert(frames.flatten() =~= seq![]);
    } else {
        let before = run(state, events.drop_last());
        let sofar = frames_taken(samples, state, events.drop_last());
        lemma_frames_join(samples, state, events.drop_last());
        if before.phase is Frame && !(events.last() is Failed) {
            let frame = samples.subrange(
                before.offset as int,
                before.offset + before.frame_length(),
            );
            sofar.lemma_flatten_push(frame);
            assert(frames.map_values(each) =~= sofar.map_values(each).push(each(frame)));
            sofar.map_values(each).lemma_flatten_push(each(frame));
            pcm::law_pcm_joins(taken_over(samples, state, events.drop_last()), frame);
        }
    }
}

/// When the last frame is done, the encoder was handed all samples, each once
/// and in order; an encoder of 16-bit integers was handed exactly their raw
/// PCM.
pub proof fn law_encoder_is_handed_the_pcm(
    samples: Seq<Sample>,
    codec: Codec,
    sample_rate: u32,
    total: usize,
    events: Seq<EncodeEvent>,
)
    requires
        samples.len() == total,
        total <= i64::MAX,
        runs(begun(codec, sample_rate, total), events),
        run(begun(codec, sample_rate, total), events).past_frames(),
    ensures
        frames_taken(samples, begun(codec, sample_rate, total), events).flatten() == samples,
        bytes_taken(samples, begun(codec, sample_rate, total), events) == pcm::le_bytes(
            pcm::amplitudes(samples),
        ),
{
    law_frames_are_the_samples(samples, codec, sample_rate, total, events);
    lemma_frames_join(samples, begun(codec, sample_rate, total), events);
}

} // verus!
