use speech_audio::audio;
use speech_audio::audio::Encoding;
use speech_audio::config::ResponseFormat;
use speech_audio::encoder::{Codec, EncodeAction};
use speech_audio::pcm;
use speech_audio::sample;
use speech_audio::sample::Sample;
use speech_audio::wav;

fn of(x: f32) -> Sample {
    Sample { bits: x.to_bits() }
}

fn complete(samples: &[Sample], rate: u32, format: ResponseFormat) -> Vec<u8> {
    match audio::encode_audio(samples, rate, format) {
        Ok(Encoding::Complete(bytes)) => bytes,
        _ => panic!("not complete"),
    }
}

#[test]
fn wav_of_two_samples() {
    let bytes = complete(&[of(1.0), of(-0.5)], 24000, ResponseFormat::Wav);
    let expected: Vec<u8> = vec![
        b'R', b'I', b'F', b'F', 40, 0, 0, 0, b'W', b'A', b'V', b'E', //
        b'f', b'm', b't', b' ', 16, 0, 0, 0, 1, 0, 1, 0, //
        0xc0, 0x5d, 0, 0, 0x80, 0xbb, 0, 0, 2, 0, 16, 0, //
        b'd', b'a', b't', b'a', 4, 0, 0, 0, 0xff, 0x7f, 0x01, 0xc0,
    ];
    assert_eq!(bytes, expected);
}

#[test]
fn wav_of_nothing() {
    let bytes = complete(&[], 0x7fff_ffff, ResponseFormat::Wav);
    assert_eq!(bytes.len(), 44);
    assert_eq!(&bytes[4..8], &[36, 0, 0, 0]);
    assert_eq!(&bytes[24..28], &[0xff, 0xff, 0xff, 0x7f]);
    assert_eq!(&bytes[28..32], &[0xfe, 0xff, 0xff, 0xff]);
    assert_eq!(&bytes[40..44], &[0, 0, 0, 0]);
}

#[test]
fn wav_reads_back() {
    let samples: Vec<Sample> = (0..500).map(|i| of((i as f32 * 0.21).cos() * 1.2)).collect();
    let bytes = audio::encode_wav(&samples, 16000).unwrap();
    assert_eq!(bytes.len(), 44 + 2 * 500);
    let mut reader = hound::WavReader::new(std::io::Cursor::new(bytes.clone())).unwrap();
    let spec = reader.spec();
    assert_eq!(spec.channels, 1);
    assert_eq!(spec.sample_rate, 16000);
    assert_eq!(spec.bits_per_sample, 16);
    let read: Vec<i16> = reader.samples::<i16>().map(|s| s.unwrap()).collect();
    let expected: Vec<i16> = samples.iter().map(|&s| sample::quantize(s)).collect();
    assert_eq!(read, expected);
    // the data are those of raw PCM
    assert_eq!(bytes[44..].to_vec(), pcm::encode_pcm(&samples));
}

#[test]
fn wav_is_what_hound_writes() {
    let samples: Vec<Sample> = (0..40).map(|i| of(i as f32 / 20.0 - 1.0)).collect();
    let mut buffer = std::io::Cursor::new(Vec::new());
    let spec = hound::WavSpec {
        channels: 1,
        sample_rate: 8000,
        bits_per_sample: 16,
        sample_format: hound::SampleFormat::Int,
    };
    let mut writer = hound::WavWriter::new(&mut buffer, spec).unwrap();
    for s in &samples {
        writer.write_sample(sample::quantize(*s)).unwrap();
    }
    writer.finalize().unwrap();
    assert_eq!(wav::write_wav(&samples, 8000, "opening: ").unwrap(), buffer.into_inner());
}

#[test]
fn wav_limits() {
    assert!(wav::is_representable(0, 1));
    assert!(!wav::is_representable(0, 0));
    assert!(wav::is_representable(0, 0x7fff_ffff));
    assert!(!wav::is_representable(0, 0x8000_0000));
    assert!(wav::is_representable(2_147_483_629, 16000));
    assert!(!wav::is_representable(2_147_483_630, 16000));
    assert!(!wav::is_representable(usize::MAX, 16000));
}

#[test]
fn raw_pcm() {
    assert_eq!(complete(&[of(-1.0), of(0.5)], 0, ResponseFormat::Pcm), vec![1, 0x80, 0xff, 0x3f]);
}

#[test]
fn other_formats_begin_an_encoding() {
    let formats = [
        (ResponseFormat::Mp3, Codec::Mp3),
        (ResponseFormat::Opus, Codec::Opus),
        (ResponseFormat::Aac, Codec::Aac),
        (ResponseFormat::Flac, Codec::Flac),
    ];
    for (format, codec) in formats {
        match audio::encode_audio(&[of(0.5), of(0.25)], 24000, format) {
            Ok(Encoding::Session(session)) => {
                assert_eq!(session.action(), EncodeAction::Initialize);
                assert_eq!(session.state.codec, codec);
                assert_eq!(session.state.total, 2);
                assert_eq!(session.samples, vec![of(0.5), of(0.25)]);
            }
            _ => panic!("no session"),
        }
    }
}
