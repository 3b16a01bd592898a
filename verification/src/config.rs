//! What a request can ask for.

use vstd::prelude::*;

verus! {

/// The encoding of the audio in a response.
#[derive(Clone, Copy, PartialEq, Eq, Debug, Structural)]
pub enum ResponseFormat {
    Mp3,
    Opus,
    Aac,
    Flac,
    Wav,
    Pcm,
}

} // verus!
