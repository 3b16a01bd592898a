//! Sample formats and time bases of a media library.

use vstd::prelude::*;

verus! {

/// The number of channels of the audio that is written and encoded.
pub const MONO: u16 = 1;

/// The stream of a container that the audio is written to.
pub const FIRST_STREAM: usize = 0;

/// The unit in which times are counted, in seconds.
#[derive(Clone, Copy, PartialEq, Eq, Debug, Structural)]
pub struct TimeBase {
    pub numerator: i32,
    pub denominator: i32,
}

/// How the channels of a frame lie in memory.
#[derive(Clone, Copy, PartialEq, Eq, Debug, Structural)]
pub enum Layout {
    /// All channels in one plane, interleaved.
    Packed,
    /// Each channel in a plane of its own.
    Planar,
}

/// How one sample of a frame is stored.
#[derive(Clone, Copy, PartialEq, Eq, Debug, Structural)]
pub enum SampleFormat {
    Unknown,
    U8(Layout),
    I16(Layout),
    I32(Layout),
    I64(Layout),
    Single(Layout),
    Double(Layout),
}

} // verus!
