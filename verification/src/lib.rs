//! Verified core of the audio side of a speech server.
//!
//! [`audio`] encodes the samples of a response, changes their speed, and
//! converts the audio of a request to a WAV file of one channel. What a media
//! library has to do is asked for step by step: [`encoder`] and [`convert`]
//! say which call is due and take what came of it.
//!
//! Samples are IEEE 754 singles, held as bits. Their arithmetic is that of
//! [`number`]: every result is the exact one, rounded to the nearest number of
//! the format by [`rounding`].

pub mod arithmetic;
pub mod audio;
pub mod binary;
pub mod calls;
pub mod config;
pub mod convert;
pub mod downmix;
pub mod encoder;
pub mod error;
pub mod fidelity;
pub mod frame;
pub mod interpolate;
pub mod laws;
pub mod media;
pub mod number;
pub mod outcome;
pub mod pcm;
pub mod planes;
pub mod range;
pub mod rate;
pub mod reads;
pub mod rounding;
pub mod sample;
pub mod speed;
pub mod steps;
pub mod stretch;
pub mod wav;
