use speech_audio::audio::convert_audio_to_wav_bytes;
use speech_audio::convert::{Conversion, ConvertAction, ConvertEvent};
use speech_audio::error::ApiError;
use speech_audio::frame::DecodedFrame;
use speech_audio::media::{Layout, SampleFormat};
use speech_audio::sample::Sample;
use speech_audio::stretch;
use speech_audio::wav;

fn go(c: &mut Conversion, expected: ConvertAction, event: ConvertEvent) {
    assert_eq!(c.action(), expected);
    assert!(c.is_expected(&event));
    assert!(c.advance(event).is_ok());
}

fn frame(rate: u32, channels: u16, values: &[i16]) -> ConvertEvent {
    ConvertEvent::Frame(DecodedFrame {
        rate,
        channels,
        samples: values.len() / channels as usize,
        format: SampleFormat::I16(Layout::Packed),
        planes: vec![values.iter().flat_map(|v| v.to_le_bytes()).collect()],
    })
}

/// A conversion whose decoder reads stream 1.
fn opened(target_rate: u32) -> Conversion {
    let mut c = convert_audio_to_wav_bytes(&[1, 2, 3], ".mp3", target_rate);
    go(&mut c, ConvertAction::CreateSource, ConvertEvent::Done);
    go(&mut c, ConvertAction::WriteSource, ConvertEvent::Done);
    go(&mut c, ConvertAction::CreateTarget, ConvertEvent::Done);
    go(&mut c, ConvertAction::Initialize, ConvertEvent::Done);
    go(&mut c, ConvertAction::OpenInput, ConvertEvent::Done);
    go(&mut c, ConvertAction::FindStream, ConvertEvent::StreamFound { index: 1 });
    go(&mut c, ConvertAction::CreateContext, ConvertEvent::Done);
    go(&mut c, ConvertAction::OpenDecoder, ConvertEvent::Done);
    c
}

fn close(c: &mut Conversion) {
    go(c, ConvertAction::OpenTarget, ConvertEvent::Done);
    go(c, ConvertAction::WriteTarget, ConvertEvent::Done);
    go(c, ConvertAction::FinishTarget, ConvertEvent::Done);
    assert!(c.output.is_empty());
    assert!(!c.is_expected(&ConvertEvent::Done));
    let written = c.rendered.clone();
    go(c, ConvertAction::ReadTarget, ConvertEvent::Read(written));
    assert_eq!(c.output, c.rendered);
    assert_eq!(c.action(), ConvertAction::Finish);
    assert!(!c.is_expected(&ConvertEvent::Done));
}

#[test]
fn conversion_keeps_its_input() {
    let c = opened(16000);
    assert_eq!(c.audio, vec![1, 2, 3]);
    assert_eq!(c.suffix, ".mp3");
    assert_eq!(c.state.target_rate, 16000);
}

#[test]
fn conversion_at_the_same_rate() {
    let mut c = opened(16000);
    // another stream's packet
    go(&mut c, ConvertAction::NextPacket, ConvertEvent::Packet { stream: 0 });
    go(&mut c, ConvertAction::NextPacket, ConvertEvent::Packet { stream: 1 });
    go(&mut c, ConvertAction::SendPacket, ConvertEvent::Done);
    go(&mut c, ConvertAction::ReceiveFrame, frame(16000, 1, &[16384, -16384]));
    go(&mut c, ConvertAction::ReceiveFrame, frame(8000, 2, &[16384, 0]));
    go(&mut c, ConvertAction::ReceiveFrame, ConvertEvent::NoFrame);
    go(&mut c, ConvertAction::NextPacket, ConvertEvent::NoPacket);
    go(&mut c, ConvertAction::SendEof, ConvertEvent::Done);
    go(&mut c, ConvertAction::ReceiveFrame, frame(16000, 1, &[-32768]));
    go(&mut c, ConvertAction::ReceiveFrame, ConvertEvent::NoFrame);
    // the first frame sets the rate and the number of channels
    assert_eq!(c.state.source_rate, Some(16000));
    assert_eq!(c.state.source_channels, Some(1));
    assert_eq!(c.action(), ConvertAction::Resample);
    assert!(!c.is_expected(&ConvertEvent::Done));
    assert!(c.can_resample());
    assert!(c.resample().is_ok());
    assert_eq!(c.action(), ConvertAction::Render);
    assert!(c.can_render());
    let decoded = c.decoded.clone();
    let values: Vec<f32> = decoded.iter().map(|s| f32::from_bits(s.bits)).collect();
    assert_eq!(values, vec![0.5, -0.5, 0.25, -1.0]);
    assert!(c.render().is_ok());
    let bytes = c.rendered.clone();
    assert_eq!(bytes, wav::write_wav(&decoded, 16000, "").unwrap());
    assert_eq!(bytes[44..].to_vec(), vec![0xff, 0x3f, 0x01, 0xc0, 0xff, 0x1f, 0x01, 0x80]);
    close(&mut c);
}

#[test]
fn conversion_to_another_rate() {
    let mut c = opened(16000);
    go(&mut c, ConvertAction::NextPacket, ConvertEvent::Packet { stream: 1 });
    go(&mut c, ConvertAction::SendPacket, ConvertEvent::Done);
    go(&mut c, ConvertAction::ReceiveFrame, frame(8000, 1, &[0, 16384, -16384]));
    go(&mut c, ConvertAction::ReceiveFrame, ConvertEvent::NoFrame);
    go(&mut c, ConvertAction::NextPacket, ConvertEvent::NoPacket);
    go(&mut c, ConvertAction::SendEof, ConvertEvent::Done);
    go(&mut c, ConvertAction::ReceiveFrame, ConvertEvent::NoFrame);
    let expected = stretch::resample(&c.decoded, 8000, 16000);
    assert!(c.resample().is_ok());
    assert_eq!(c.decoded, expected);
    let values: Vec<f32> = expected.iter().map(|s| f32::from_bits(s.bits)).collect();
    assert_eq!(values, vec![0.0, 0.25, 0.5, 0.0, -0.5, -0.5]);
    assert!(c.render().is_ok());
    let bytes = c.rendered.clone();
    assert_eq!(&bytes[24..28], &16000u32.to_le_bytes());
    assert_eq!(bytes.len(), 44 + 12);
    close(&mut c);
}

fn flushed(target_rate: u32, frames: Vec<ConvertEvent>) -> Conversion {
    let mut c = opened(target_rate);
    go(&mut c, ConvertAction::NextPacket, ConvertEvent::NoPacket);
    go(&mut c, ConvertAction::SendEof, ConvertEvent::Done);
    for f in frames {
        go(&mut c, ConvertAction::ReceiveFrame, f);
    }
    go(&mut c, ConvertAction::ReceiveFrame, ConvertEvent::NoFrame);
    c
}

#[test]
fn conversion_of_nothing() {
    let mut c = flushed(16000, vec![]);
    assert!(c.can_resample());
    assert_eq!(
        c.resample().unwrap_err().message(),
        "No audio samples decoded from input"
    );
    assert_eq!(c.action(), ConvertAction::Finish);
}

#[test]
fn rates_of_zero() {
    let c = flushed(16000, vec![frame(0, 1, &[1])]);
    assert!(!c.can_resample());
    let mut c = flushed(0, vec![frame(8000, 1, &[1])]);
    assert!(c.can_resample());
    assert!(c.resample().is_ok());
    assert!(c.decoded.is_empty());
    assert!(!c.can_render());
}

#[test]
fn ill_formed_frames_are_not_expected() {
    let mut c = opened(16000);
    assert!(c.advance(ConvertEvent::NoPacket).is_ok());
    assert!(c.advance(ConvertEvent::Done).is_ok());
    let bad = ConvertEvent::Frame(DecodedFrame {
        rate: 1,
        channels: 2,
        samples: 1,
        format: SampleFormat::Single(Layout::Planar),
        planes: vec![vec![0; 4]],
    });
    assert!(!c.is_expected(&bad));
    assert!(!c.is_expected(&ConvertEvent::Done));
}

fn failing(c: &Conversion, text: &str) {
    let mut copy = Conversion {
        audio: c.audio.clone(),
        suffix: c.suffix.clone(),
        state: c.state,
        decoded: c.decoded.clone(),
        rendered: c.rendered.clone(),
        output: c.output.clone(),
    };
    let event = if copy.is_expected(&ConvertEvent::Missing) {
        ConvertEvent::Missing
    } else {
        ConvertEvent::Failed(String::from("cause"))
    };
    assert!(copy.is_expected(&event));
    assert_eq!(copy.advance(event).unwrap_err().message(), text);
    assert_eq!(copy.action(), ConvertAction::Finish);
    assert!(!copy.is_expected(&ConvertEvent::Done));
}

#[test]
fn conversion_failures() {
    let mut c = convert_audio_to_wav_bytes(&[], "", 16000);
    let steps = vec![
        (ConvertEvent::Done, "Failed to create temp file: cause"),
        (ConvertEvent::Done, "Failed to write temp file: cause"),
        (ConvertEvent::Done, "Failed to create WAV temp file: cause"),
        (ConvertEvent::Done, "Failed to initialize ffmpeg: cause"),
        (ConvertEvent::Done, "Failed to open input: cause"),
        (ConvertEvent::StreamFound { index: 0 }, "No audio stream found in input"),
        (ConvertEvent::Done, "Failed to create decoder context: cause"),
        (ConvertEvent::Done, "Failed to open decoder: cause"),
    ];
    for (event, text) in steps {
        failing(&c, text);
        assert!(c.advance(event).is_ok());
    }
    assert!(c.advance(ConvertEvent::Packet { stream: 0 }).is_ok());
    failing(&c, "Decoder send_packet error: cause");
    assert!(c.advance(ConvertEvent::Done).is_ok());
    assert!(c.advance(frame(16000, 1, &[5])).is_ok());
    assert!(c.advance(ConvertEvent::NoFrame).is_ok());
    assert!(c.advance(ConvertEvent::NoPacket).is_ok());
    failing(&c, "Decoder send_eof error: cause");
    assert!(c.advance(ConvertEvent::Done).is_ok());
    assert!(c.advance(ConvertEvent::NoFrame).is_ok());
    assert!(c.resample().is_ok());
    assert!(c.render().is_ok());
    failing(&c, "Failed to create WAV writer: cause");
    assert!(c.advance(ConvertEvent::Done).is_ok());
    failing(&c, "WAV write error: cause");
    assert!(c.advance(ConvertEvent::Done).is_ok());
    failing(&c, "WAV finalize error: cause");
    assert!(c.advance(ConvertEvent::Done).is_ok());
    failing(&c, "Failed to read WAV output: cause");
}

#[test]
fn error_texts() {
    let e = ApiError::failed("step: ", "cause");
    assert_eq!(e.message(), "step: cause");
    let e = ApiError::internal(String::from("text"));
    assert_eq!(e.message(), "text");
    assert!(matches!(e, ApiError::Internal(_)));
}

fn rendered(mut c: Conversion) -> Vec<u8> {
    assert!(c.can_resample());
    assert!(c.resample().is_ok());
    assert!(c.can_render());
    assert!(c.render().is_ok());
    c.rendered
}

/// Feeds packets, each with its stream and its frames, and what is left at the end.
fn fed(
    index: usize,
    target_rate: u32,
    packets: Vec<(usize, Vec<ConvertEvent>)>,
    rest: Vec<ConvertEvent>,
) -> Conversion {
    let mut c = convert_audio_to_wav_bytes(&[], ".wav", target_rate);
    while c.action() != ConvertAction::FindStream {
        assert!(c.advance(ConvertEvent::Done).is_ok());
    }
    assert!(c.advance(ConvertEvent::StreamFound { index }).is_ok());
    assert!(c.advance(ConvertEvent::Done).is_ok());
    assert!(c.advance(ConvertEvent::Done).is_ok());
    for (stream, frames) in packets {
        go(&mut c, ConvertAction::NextPacket, ConvertEvent::Packet { stream });
        if stream == index {
            go(&mut c, ConvertAction::SendPacket, ConvertEvent::Done);
            for f in frames {
                go(&mut c, ConvertAction::ReceiveFrame, f);
            }
            go(&mut c, ConvertAction::ReceiveFrame, ConvertEvent::NoFrame);
        }
    }
    go(&mut c, ConvertAction::NextPacket, ConvertEvent::NoPacket);
    go(&mut c, ConvertAction::SendEof, ConvertEvent::Done);
    for f in rest {
        go(&mut c, ConvertAction::ReceiveFrame, f);
    }
    go(&mut c, ConvertAction::ReceiveFrame, ConvertEvent::NoFrame);
    c
}

#[test]
fn other_streams_leave_no_trace() {
    let frames = || vec![frame(8000, 2, &[1000, -3000, 7, 9])];
    let alone = fed(0, 11025, vec![(0, frames()), (0, frames())], vec![]);
    let among = fed(
        2,
        11025,
        vec![(0, vec![]), (2, frames()), (1, vec![]), (3, vec![]), (2, frames()), (0, vec![])],
        vec![],
    );
    assert_eq!(alone.state.phase, among.state.phase);
    assert_eq!(alone.decoded, among.decoded);
    assert_eq!(rendered(alone), rendered(among));
}

#[test]
fn cuts_leave_no_trace() {
    let values: Vec<i16> = (0..60).map(|i| i * 500 - 15000).collect();
    let cut = |from: usize, to: usize| frame(8000, 2, &values[from..to]);
    let whole = fed(0, 12000, vec![(0, vec![cut(0, 60)])], vec![]);
    let pieces = fed(
        0,
        12000,
        vec![(0, vec![cut(0, 10), cut(10, 10), cut(10, 32)]), (0, vec![]), (0, vec![cut(32, 40)])],
        vec![cut(40, 58), cut(58, 60)],
    );
    assert_eq!(whole.decoded, pieces.decoded);
    assert_eq!(rendered(whole), rendered(pieces));
}

#[test]
fn mono_i16_comes_one_step_nearer() {
    let values: Vec<i16> = vec![0, 1, -1, 2, 32767, -32768, 12345, -54];
    let c = fed(0, 16000, vec![(0, vec![frame(16000, 1, &values)])], vec![]);
    let bytes = rendered(c);
    let read: Vec<i16> =
        bytes[44..].chunks(2).map(|b| i16::from_le_bytes([b[0], b[1]])).collect();
    assert_eq!(read, vec![0, 0, 0, 1, 32766, -32767, 12344, -53]);
}

#[test]
fn wav_round_trip() {
    let samples: Vec<Sample> =
        (0..400).map(|i| Sample { bits: (i as f32 * 0.31).sin().to_bits() }).collect();
    let a = wav::write_wav(&samples, 22050, "").unwrap();
    let mut reader = hound::WavReader::new(std::io::Cursor::new(a.clone())).unwrap();
    let rate = reader.spec().sample_rate;
    let values: Vec<i16> = reader.samples::<i16>().map(|s| s.unwrap()).collect();
    let w = rendered(fed(0, 22050, vec![(0, vec![frame(rate, 1, &values)])], vec![]));
    assert_eq!(w.len(), a.len());
    assert_eq!(w[..44], a[..44]);
    for i in 0..400 {
        let x = i16::from_le_bytes([a[44 + 2 * i], a[45 + 2 * i]]);
        let y = i16::from_le_bytes([w[44 + 2 * i], w[45 + 2 * i]]);
        assert_eq!(y, x - x.signum());
    }
}

#[test]
fn doubles_are_converted() {
    let half = ConvertEvent::Frame(DecodedFrame {
        rate: 8000,
        channels: 1,
        samples: 1,
        format: SampleFormat::Double(Layout::Packed),
        planes: vec![0.5f64.to_le_bytes().to_vec()],
    });
    let bytes = rendered(fed(0, 8000, vec![(0, vec![half])], vec![]));
    assert_eq!(bytes[44..].to_vec(), 16383i16.to_le_bytes().to_vec());
}
