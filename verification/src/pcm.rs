//! Raw 16-bit PCM.

use crate::sample;
use crate::sample::Sample;
use vstd::prelude::*;

verus! {

/// The low byte of a 16-bit two's complement integer.
pub open spec fn low_byte(v: int) -> u8 {
    (v % 256) as u8
}

/// The high byte of a 16-bit two's complement integer.
pub open spec fn high_byte(v: int) -> u8 {
    (v / 256 % 256) as u8
}

/// The 16-bit integer that two bytes stand for, the low byte first.
pub open spec fn of_bytes(low: u8, high: u8) -> int {
    let n = low + 256 * high;
    if n < 0x8000 {
        n
    } else {
        n - 0x1_0000
    }
}

/// 16-bit integers as bytes, the low byte of each first.
pub open spec fn le_bytes(amplitudes: Seq<int>) -> Seq<u8> {
    Seq::new(
        2 * amplitudes.len(),
        |i: int|
            if i % 2 == 0 {
                low_byte(amplitudes[i / 2])
            } else {
                high_byte(amplitudes[i / 2])
            },
    )
}

/// Samples as 16-bit amplitudes.
pub open spec fn amplitudes(samples: Seq<Sample>) -> Seq<int> {
    samples.map_values(|s: Sample| sample::quantized(s))
}

/// The low and the high byte of a 16-bit integer.
pub fn to_bytes(v: i16) -> (r: (u8, u8))
    ensures
        r.0 == low_byte(v as int),
        r.1 == high_byte(v as int),
{
    let n: i32 = if v < 0 {
        v as i32 + 0x1_0000
    } else {
        v as i32
    };
    ((n % 256) as u8, (n / 256) as u8)
}

/// The 16-bit integer that two bytes stand for, the low byte first.
pub fn from_bytes(low: u8, high: u8) -> (r: i16)
    ensures
        r == of_bytes(low, high),
{
    let n: i32 = low as i32 + 256 * high as i32;
    if n < 0x8000 {
        n as i16
    } else {
        (n - 0x1_0000) as i16
    }
}

/// Encodes samples as raw 16-bit signed little-endian PCM.
pub fn encode_pcm(samples: &[Sample]) -> (bytes: Vec<u8>)
    ensures
        bytes@ == le_bytes(amplitudes(samples@)),
{
    let mut bytes: Vec<u8> = Vec::new();
    for i in 0..samples.len()
        invariant
            bytes@ =~= le_bytes(amplitudes(samples@.take(i as int))),
    {
        let (low, high) = to_bytes(sample::quantize(samples[i]));
        bytes.push(low);
        bytes.push(high);
        proof {
            let before = amplitudes(samples@.take(i as int));
            let after = amplitudes(samples@.take(i + 1));
            assert(after == before.push(sample::quantized(samples@[i as int])));
            assert(bytes@.len() == 2 * after.len());
            assert forall|j: int| 0 <= j < bytes@.len() implies bytes@[j] == le_bytes(after)[j] by {
                if j < 2 * i {
                    assert(le_bytes(before)[j] == le_bytes(after)[j]);
                }
            }
        }
    }
    assert(samples@.take(samples@.len() as int) == samples@);
    bytes
}

/// Bytes written for a 16-bit integer read back as that integer.
pub proof fn law_bytes_read_back(v: int)
    requires
        -0x8000 <= v < 0x8000,
    ensures
        of_bytes(low_byte(v), high_byte(v)) == v,
{
}

/// Two bytes that are read are written again for what was read.
pub proof fn law_bytes_write_back(low: u8, high: u8)
    ensures
        low_byte(of_bytes(low, high)) == low,
        high_byte(of_bytes(low, high)) == high,
{
}

/// A PCM stream has two bytes for each sample, from which the sample's
/// amplitude can be read.
pub proof fn law_pcm_reads_back(samples: Seq<Sample>, i: int)
    requires
        0 <= i < samples.len(),
    ensures
        ({
            let bytes = le_bytes(amplitudes(samples));
            &&& bytes.len() == 2 * samples.len()
            &&& of_bytes(bytes[2 * i], bytes[2 * i + 1]) == sample::quantized(samples[i])
        }),
{
    sample::law_quantized_in_range(samples[i]);
    let bytes = le_bytes(amplitudes(samples));
    assert((2 * i) / 2 == i && (2 * i + 1) / 2 == i);
    law_bytes_read_back(sample::quantized(samples[i]));
}

/// A PCM stream of joined samples is the joined PCM streams.
pub proof fn law_pcm_joins(first: Seq<Sample>, second: Seq<Sample>)
    ensures
        le_bytes(amplitudes(first + second)) == le_bytes(amplitudes(first)) + le_bytes(
            amplitudes(second),
        ),
{
    let joined = le_bytes(amplitudes(first + second));
    let apart = le_bytes(amplitudes(first)) + le_bytes(amplitudes(second));
    assert forall|i: int| 0 <= i < joined.len() implies joined[i] == apart[i] by {
        let n = 2 * first.len();
        if i >= n {
            assert((i - n) % 2 == i % 2);
            assert((i - n) / 2 == i / 2 - first.len());
        }
    }
    assert(joined =~= apart);
}

/// The 16-bit integers that the bytes of a stream stand for.
pub open spec fn values(bytes: Seq<u8>) -> Seq<int> {
    Seq::new(bytes.len() / 2, |i: int| of_bytes(bytes[2 * i], bytes[2 * i + 1]))
}

/// The integers of a PCM stream are the amplitudes of the samples, in order.
pub proof fn law_pcm_values(samples: Seq<Sample>)
    ensures
        values(le_bytes(amplitudes(samples))) == amplitudes(samples),
{
    let bytes = le_bytes(amplitudes(samples));
    assert forall|i: int| 0 <= i < samples.len() implies values(bytes)[i] == amplitudes(
        samples,
    )[i] by {
        law_pcm_reads_back(samples, i);
    }
    assert(values(bytes) =~= amplitudes(samples));
}

/// Two bytes stand for the 16-bit integer that has the first as its low and the
/// second as its high digit.
pub proof fn law_low_byte_first(low: u8, high: u8)
    ensures
        ({
            let v = of_bytes(low, high);
            &&& -0x8000 <= v < 0x8000
            &&& v == low + 0x100 * high || v == low + 0x100 * high - 0x1_0000
        }),
{
}

} // verus!
