use speech_audio::encoder;
use speech_audio::config::ResponseFormat;
use speech_audio::encoder::{Codec, EncodeAction, EncodeEvent, EncodeSession};
use speech_audio::media::{Layout, SampleFormat, TimeBase};
use speech_audio::pcm;
use speech_audio::sample::Sample;

const S16: SampleFormat = SampleFormat::I16(Layout::Packed);
const ENCODER_TIME: TimeBase = TimeBase { numerator: 1, denominator: 24000 };
const STREAM_TIME: TimeBase = TimeBase { numerator: 1, denominator: 90000 };
const FLOATS: SampleFormat = SampleFormat::Single(Layout::Planar);

const WRITE: EncodeAction =
    EncodeAction::WritePacket { stream: 0, from: ENCODER_TIME, to: STREAM_TIME };

fn packet(size: usize) -> EncodeEvent {
    EncodeEvent::Packet { size, time_base: ENCODER_TIME }
}

fn header() -> EncodeEvent {
    EncodeEvent::HeaderWritten { time_base: STREAM_TIME }
}

fn session(count: usize, rate: u32, codec: Codec) -> EncodeSession {
    let samples: Vec<Sample> =
        (0..count).map(|i| Sample { bits: (i as f32 / 64.0 - 0.5).to_bits() }).collect();
    EncodeSession::start(&samples, rate, codec)
}

fn go(session: &mut EncodeSession, expected: EncodeAction, event: EncodeEvent) {
    assert_eq!(session.action(), expected);
    assert!(session.is_expected(&event));
    assert!(session.advance(event).is_ok());
}

/// Goes on until the first frame is due, or the resampler.
fn open(session: &mut EncodeSession, preferred: Option<SampleFormat>, frame_size: u32) {
    let codec = session.state.codec;
    let rate = if codec == Codec::Opus { 48000 } else { session.state.sample_rate };
    go(session, EncodeAction::Initialize, EncodeEvent::Done);
    go(session, EncodeAction::FindEncoder { codec }, EncodeEvent::EncoderFound { preferred });
    go(session, EncodeAction::CreateFile, EncodeEvent::Done);
    go(session, EncodeAction::OpenOutput, EncodeEvent::Done);
    go(session, EncodeAction::AddStream, EncodeEvent::StreamAdded { global_header: true });
    go(session, EncodeAction::CreateEncoder { global_header: true }, EncodeEvent::Done);
    go(
        session,
        EncodeAction::OpenEncoder { rate, channels: 1, format: preferred.unwrap_or(S16) },
        EncodeEvent::EncoderOpened { frame_size },
    );
    go(session, EncodeAction::SetParameters, EncodeEvent::Done);
    assert!(!session.is_expected(&EncodeEvent::Done));
    go(session, EncodeAction::WriteHeader, header());
}

fn close(session: &mut EncodeSession) {
    go(session, EncodeAction::SendEof, EncodeEvent::Done);
    go(session, EncodeAction::ReceivePacket, EncodeEvent::NoPacket);
    go(session, EncodeAction::WriteTrailer, EncodeEvent::Done);
    assert!(session.output.is_empty());
    assert!(!session.is_expected(&EncodeEvent::Done));
    go(session, EncodeAction::ReadOutput, EncodeEvent::Read(vec![4, 5, 6]));
    assert_eq!(session.action(), EncodeAction::Finish);
    assert_eq!(session.output, vec![4, 5, 6]);
}

#[test]
fn codecs_of_formats() {
    assert_eq!(encoder::find_codec(ResponseFormat::Mp3), Some(Codec::Mp3));
    assert_eq!(encoder::find_codec(ResponseFormat::Opus), Some(Codec::Opus));
    assert_eq!(encoder::find_codec(ResponseFormat::Aac), Some(Codec::Aac));
    assert_eq!(encoder::find_codec(ResponseFormat::Flac), Some(Codec::Flac));
    assert_eq!(encoder::find_codec(ResponseFormat::Wav), None);
    assert_eq!(encoder::find_codec(ResponseFormat::Pcm), None);
}

#[test]
fn direct_frames() {
    let mut s = session(25, 24000, Codec::Flac);
    open(&mut s, Some(S16), 10);
    let all = s.samples.clone();
    let mut bytes = Vec::new();
    for (first, length) in [(0usize, 10usize), (10, 10), (20, 5)] {
        let pts = first as i64;
        assert_eq!(s.frame_samples(), all[first..first + length].to_vec());
        assert_eq!(s.frame_bytes(), pcm::encode_pcm(&all[first..first + length]));
        bytes.extend(s.frame_bytes());
        go(&mut s, EncodeAction::SendDirect { rate: 24000, channels: 1, pts, length }, EncodeEvent::Done);
        go(&mut s, EncodeAction::ReceivePacket, packet(3));
        go(&mut s, WRITE, EncodeEvent::Done);
        // an empty packet is passed over
        go(&mut s, EncodeAction::ReceivePacket, packet(0));
        go(&mut s, EncodeAction::ReceivePacket, EncodeEvent::NoPacket);
    }
    assert_eq!(bytes, pcm::encode_pcm(&all));
    close(&mut s);
}

#[test]
fn resampled_frames() {
    let mut s = session(12, 24000, Codec::Opus);
    open(&mut s, None, 8);
    go(
        &mut s,
        EncodeAction::CreateResampler { from_rate: 24000, to_rate: 48000, channels: 1, to_format: S16 },
        EncodeEvent::Done,
    );
    go(
        &mut s,
        EncodeAction::Resample { rate: 24000, channels: 1, pts: 0, length: 8 },
        EncodeEvent::Resampled { count: 16 },
    );
    go(&mut s, EncodeAction::SendResampled, EncodeEvent::Done);
    go(&mut s, EncodeAction::ReceivePacket, EncodeEvent::NoPacket);
    // nothing is sent if the resampler held everything back
    go(
        &mut s,
        EncodeAction::Resample { rate: 24000, channels: 1, pts: 8, length: 4 },
        EncodeEvent::Resampled { count: 0 },
    );
    go(&mut s, EncodeAction::SendEof, EncodeEvent::Done);
    go(&mut s, EncodeAction::ReceivePacket, packet(9));
    go(&mut s, WRITE, EncodeEvent::Done);
    go(&mut s, EncodeAction::ReceivePacket, EncodeEvent::NoPacket);
    go(&mut s, EncodeAction::WriteTrailer, EncodeEvent::Done);
    go(&mut s, EncodeAction::ReadOutput, EncodeEvent::Read(vec![]));
    assert_eq!(s.action(), EncodeAction::Finish);
}

#[test]
fn another_format_needs_a_resampler() {
    let mut s = session(3, 44100, Codec::Aac);
    open(&mut s, Some(FLOATS), 1024);
    assert_eq!(
        s.action(),
        EncodeAction::CreateResampler {
            from_rate: 44100,
            to_rate: 44100,
            channels: 1,
            to_format: FLOATS
        }
    );
}

#[test]
fn opus_at_its_own_rate_needs_none() {
    let mut s = session(3, 48000, Codec::Opus);
    open(&mut s, Some(S16), 960);
    assert_eq!(s.action(), EncodeAction::SendDirect { rate: 48000, channels: 1, pts: 0, length: 3 });
}

#[test]
fn frames_of_any_size_have_1024_samples() {
    let mut s = session(2000, 24000, Codec::Flac);
    open(&mut s, None, 0);
    assert_eq!(s.action(), EncodeAction::SendDirect { rate: 24000, channels: 1, pts: 0, length: 1024 });
}

#[test]
fn no_samples_make_no_frame() {
    let mut s = session(0, 24000, Codec::Flac);
    open(&mut s, Some(S16), 10);
    close(&mut s);
}

#[test]
fn unexpected_events() {
    let s = session(3, 24000, Codec::Mp3);
    assert!(!s.is_expected(&EncodeEvent::NoPacket));
    assert!(!s.is_expected(&EncodeEvent::Missing));
    assert!(!s.is_expected(&packet(1)));
    assert!(s.is_expected(&EncodeEvent::Failed(String::from("x"))));
}

fn copy_of(session: &EncodeSession) -> EncodeSession {
    EncodeSession {
        samples: session.samples.clone(),
        state: session.state,
        output: session.output.clone(),
    }
}

/// Fails the call that is due; nothing is expected after that.
fn fail(session: &mut EncodeSession, event: EncodeEvent) -> String {
    assert!(session.is_expected(&event));
    let error = session.advance(event).unwrap_err();
    assert_eq!(session.action(), EncodeAction::Finish);
    assert!(!session.is_expected(&EncodeEvent::Done));
    assert!(!session.is_expected(&EncodeEvent::Failed(String::new())));
    String::from(error.message())
}

fn cause() -> EncodeEvent {
    EncodeEvent::Failed(String::from("cause"))
}

#[test]
fn failures_before_the_frames() {
    let steps: Vec<(EncodeEvent, &str)> = vec![
        (EncodeEvent::Done, "Failed to initialize ffmpeg: cause"),
        (EncodeEvent::EncoderFound { preferred: Some(FLOATS) }, "Encoder not found for MP3"),
        (EncodeEvent::Done, "Failed to create output temp file: cause"),
        (EncodeEvent::Done, "Failed to open output: cause"),
        (EncodeEvent::StreamAdded { global_header: false }, "Failed to add output stream: cause"),
        (EncodeEvent::Done, "Failed to create encoder: cause"),
        (EncodeEvent::EncoderOpened { frame_size: 4 }, "Failed to open encoder: cause"),
        (EncodeEvent::Done, "No output stream found"),
        (header(), "Failed to write output header: cause"),
        (EncodeEvent::Done, "Failed to create resampler: cause"),
        (EncodeEvent::Resampled { count: 4 }, "Resampler error: cause"),
        (EncodeEvent::Done, "Encoder send_frame error: cause"),
    ];
    let mut s = session(4, 24000, Codec::Mp3);
    for (event, text) in steps {
        let mut failing = copy_of(&s);
        let failure = if failing.is_expected(&EncodeEvent::Missing) {
            EncodeEvent::Missing
        } else {
            cause()
        };
        assert_eq!(fail(&mut failing, failure), text);
        assert!(s.advance(event).is_ok());
    }
    assert_eq!(s.action(), EncodeAction::ReceivePacket);
}

#[test]
fn failures_from_the_frames_on() {
    let mut s = session(4, 24000, Codec::Flac);
    open(&mut s, Some(S16), 4);
    let at = |s: &EncodeSession, text: &str| {
        let mut failing = copy_of(s);
        assert_eq!(fail(&mut failing, cause()), text);
    };
    at(&s, "Encoder send_frame error: cause");
    assert!(s.advance(EncodeEvent::Done).is_ok());
    assert!(s.advance(packet(1)).is_ok());
    at(&s, "Failed to write packet: cause");
    assert!(s.advance(EncodeEvent::Done).is_ok());
    assert!(s.advance(EncodeEvent::NoPacket).is_ok());
    at(&s, "Encoder send_eof error: cause");
    assert!(s.advance(EncodeEvent::Done).is_ok());
    assert!(s.advance(EncodeEvent::NoPacket).is_ok());
    at(&s, "Failed to write output trailer: cause");
    assert!(s.advance(EncodeEvent::Done).is_ok());
    at(&s, "Failed to read encoded output: cause");
}

#[test]
fn missing_encoders() {
    for (codec, text) in [
        (Codec::Opus, "Encoder not found for OPUS"),
        (Codec::Aac, "Encoder not found for AAC"),
        (Codec::Flac, "Encoder not found for FLAC"),
    ] {
        let mut s = session(1, 24000, codec);
        assert!(s.advance(EncodeEvent::Done).is_ok());
        assert_eq!(fail(&mut s, EncodeEvent::Missing), text);
    }
}

#[test]
fn frames_are_cut_evenly() {
    for (total, size) in [(1usize, 7usize), (7, 7), (8, 7), (50, 7), (49, 7), (3, 1024)] {
        let mut s = session(total, 24000, Codec::Flac);
        open(&mut s, Some(S16), size as u32);
        let all = s.samples.clone();
        let mut frames: usize = 0;
        let mut bytes = Vec::new();
        while s.action() != EncodeAction::SendEof {
            let first = frames * size;
            let length = std::cmp::min(size, total - first);
            assert_eq!(s.frame_samples(), all[first..first + length].to_vec());
            bytes.extend(s.frame_bytes());
            let sent =
                EncodeAction::SendDirect { rate: 24000, channels: 1, pts: first as i64, length };
            go(&mut s, sent, EncodeEvent::Done);
            go(&mut s, EncodeAction::ReceivePacket, EncodeEvent::NoPacket);
            frames += 1;
        }
        assert_eq!(frames, (total + size - 1) / size);
        assert_eq!(bytes, pcm::encode_pcm(&all));
        close(&mut s);
    }
}

#[test]
fn packets_are_drained() {
    let mut s = session(4, 24000, Codec::Flac);
    open(&mut s, Some(S16), 4);
    go(
        &mut s,
        EncodeAction::SendDirect { rate: 24000, channels: 1, pts: 0, length: 4 },
        EncodeEvent::Done,
    );
    let bases = [(5usize, 1), (0, 2), (7, 3), (0, 4), (0, 5), (1, 6)];
    let mut written = Vec::new();
    for (size, denominator) in bases {
        let time_base = TimeBase { numerator: 1, denominator };
        go(&mut s, EncodeAction::ReceivePacket, EncodeEvent::Packet { size, time_base });
        if let EncodeAction::WritePacket { stream, from, to } = s.action() {
            assert_eq!(stream, 0);
            assert_eq!(to, STREAM_TIME);
            written.push(from.denominator);
            assert!(s.advance(EncodeEvent::Done).is_ok());
        }
    }
    assert_eq!(written, vec![1, 3, 6]);
    go(&mut s, EncodeAction::ReceivePacket, EncodeEvent::NoPacket);
    close(&mut s);
}

#[test]
fn calls_are_in_order() {
    let mut s = session(20, 24000, Codec::Mp3);
    let mut calls = Vec::new();
    let mut drained = true;
    while s.action() != EncodeAction::Finish {
        let action = s.action();
        calls.push(action);
        let event = match action {
            EncodeAction::FindEncoder { .. } => {
                EncodeEvent::EncoderFound { preferred: Some(FLOATS) }
            }
            EncodeAction::AddStream => EncodeEvent::StreamAdded { global_header: false },
            EncodeAction::OpenEncoder { .. } => EncodeEvent::EncoderOpened { frame_size: 8 },
            EncodeAction::WriteHeader => header(),
            EncodeAction::Resample { length, .. } => EncodeEvent::Resampled { count: length },
            EncodeAction::ReceivePacket => {
                drained = !drained;
                if drained { EncodeEvent::NoPacket } else { packet(3) }
            }
            EncodeAction::ReadOutput => EncodeEvent::Read(vec![9]),
            _ => EncodeEvent::Done,
        };
        assert!(s.is_expected(&event));
        assert!(s.advance(event).is_ok());
    }
    let places = |kind: fn(&EncodeAction) -> bool| -> Vec<usize> {
        (0..calls.len()).filter(|&k| kind(&calls[k])).collect()
    };
    let header = places(|c| *c == EncodeAction::WriteHeader);
    let eof = places(|c| *c == EncodeAction::SendEof);
    let trailer = places(|c| *c == EncodeAction::WriteTrailer);
    let frames = places(|c| matches!(c, EncodeAction::Resample { .. }));
    let writes = places(|c| matches!(c, EncodeAction::WritePacket { .. }));
    assert_eq!((header.len(), eof.len(), trailer.len(), frames.len()), (1, 1, 1, 3));
    assert!(header[0] < eof[0] && eof[0] < trailer[0]);
    assert!(frames.iter().all(|&k| header[0] < k && k < eof[0]));
    assert_eq!(writes.len(), 4);
    assert!(writes.iter().all(|&k| header[0] < k && k < trailer[0]));
    assert_eq!(s.output, vec![9]);
}
