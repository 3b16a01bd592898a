//! The three services of the crate: encoding of a response's audio, change of
//! its speed, and conversion of a request's audio.

pub use crate::convert::convert_audio_to_wav_bytes;
pub use crate::stretch::apply_speed;

use crate::config::ResponseFormat;
use crate::encoder;
use crate::encoder::EncodeSession;
use crate::error::ApiError;
use crate::pcm;
use crate::sample::Sample;
use crate::wav;
use vstd::prelude::*;

verus! {

/// Encoded audio, or the encoding that has to be driven to get it.
pub enum Encoding {
    Complete(Vec<u8>),
    Session(EncodeSession),
}

/// Encodes samples to the requested format. A format of the media library gives
/// an encoding that is about to begin.
///
/// A WAV file has to be able to tell its sizes and rates.
pub fn encode_audio(samples: &[Sample], sample_rate: u32, format: ResponseFormat) -> (r: Result<
    Encoding,
    ApiError,
>)
    requires
        samples@.len() <= i64::MAX,
        format is Wav ==> wav::representable(samples@.len(), sample_rate),
    ensures
        match format {
            ResponseFormat::Wav => match r {
                Ok(Encoding::Complete(bytes)) => is_wav(Ok(bytes), samples@, sample_rate),
                Ok(Encoding::Session(_)) => false,
                Err(e) => is_wav(Err(e), samples@, sample_rate),
            },
            ResponseFormat::Pcm => match r {
                Ok(Encoding::Complete(bytes)) => bytes@ == pcm::le_bytes(pcm::amplitudes(samples@)),
                _ => false,
            },
            _ => match r {
                Ok(Encoding::Session(session)) => {
                    &&& session.well_formed()
                    &&& session.samples@ == samples@
                    &&& session.output@.len() == 0
                    &&& session.state == encoder::begun(
                        encoder::codec_of(format)->0,
                        sample_rate,
                        samples.len(),
                    )
                },
                _ => false,
            },
        },
{
    match format {
        ResponseFormat::Wav => match encode_wav(samples, sample_rate) {
            Ok(bytes) => Ok(Encoding::Complete(bytes)),
            Err(e) => Err(e),
        },
        ResponseFormat::Pcm => Ok(Encoding::Complete(pcm::encode_pcm(samples))),
        _ => Ok(Encoding::Session(encode_with_ffmpeg_lib(samples, sample_rate, format))),
    }
}

/// What encoding samples as a WAV file gives.
pub open spec fn is_wav(
    r: Result<Vec<u8>, ApiError>,
    samples: Seq<Sample>,
    sample_rate: u32,
) -> bool {
    wav::is_written(r, samples, sample_rate, "WAV encode error: "@)
}

/// Encodes samples as 16-bit PCM WAV (mono).
pub fn encode_wav(samples: &[Sample], sample_rate: u32) -> (r: Result<Vec<u8>, ApiError>)
    requires
        wav::representable(samples@.len(), sample_rate),
    ensures
        is_wav(r, samples@, sample_rate),
{
    wav::write_wav(samples, sample_rate, "WAV encode error: ")
}

/// Begins an encoding by the media library.
pub fn encode_with_ffmpeg_lib(
    samples: &[Sample],
    sample_rate: u32,
    format: ResponseFormat,
) -> (r: EncodeSession)
    requires
        samples@.len() <= i64::MAX,
        encoder::codec_of(format) is Some,
    ensures
        r.well_formed(),
        r.samples@ == samples@,
        r.output@.len() == 0,
        r.state == encoder::begun(encoder::codec_of(format)->0, sample_rate, samples.len()),
{
    let codec = encoder::find_codec(format).unwrap();
    EncodeSession::start(samples, sample_rate, codec)
}

/// A WAV encoding fails under its own name if the file cannot be begun.
pub proof fn law_wav_encoding_names_itself(
    r: Result<Vec<u8>, ApiError>,
    samples: Seq<Sample>,
    sample_rate: u32,
)
    requires
        is_wav(r, samples, sample_rate),
    ensures
        wav::is_written(r, samples, sample_rate, "WAV encode error: "@),
{
}

} // verus!
