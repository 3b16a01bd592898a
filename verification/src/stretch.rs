//! Change of speed and of sample rate, by linear interpolation.

use crate::laws;
use crate::number;
use crate::number::Number;
use crate::rounding;
use crate::rounding::Width;
use crate::sample;
use crate::sample::Sample;
use vstd::arithmetic::power2::*;
use vstd::prelude::*;

verus! {

/// A number of double width with its fraction cut off, as an index: zero for
/// what is negative or no number, the largest index for what is too large.
pub open spec fn as_index(x: Number) -> nat {
    if number::is_nan(Width::Double, x) || x.negative {
        0
    } else if number::is_infinite(Width::Double, x) || number::whole_part(Width::Double, x)
        >= usize::MAX {
        usize::MAX as nat
    } else {
        number::whole_part(Width::Double, x)
    }
}

/// An index or a length as a number of double width.
pub open spec fn index_number(n: nat) -> Number {
    number::whole(Width::Double, false, n)
}

/// `a * (1 - fraction) + b * fraction`, rounded at each step.
pub open spec fn blended(a: Sample, b: Sample, fraction: Number) -> Number {
    number::sum(
        Width::Single,
        number::product(
            Width::Single,
            a.number(),
            number::difference(Width::Single, sample::one(false), fraction),
        ),
        number::product(Width::Single, b.number(), fraction),
    )
}

/// How far a position lies past an index.
pub open spec fn fraction_past(position: Number, index: nat) -> Number {
    number::narrowed(number::difference(Width::Double, position, index_number(index)))
}

/// What is read at a position: the two samples about it, blended; the last
/// sample if there is none after it; nothing past the end.
pub open spec fn read_at(samples: Seq<Sample>, position: Number) -> Seq<Sample> {
    let index = as_index(position) as int;
    if index + 1 < samples.len() {
        seq![
            Sample::of(
                blended(samples[index], samples[index + 1], fraction_past(position, index as nat)),
            ),
        ]
    } else if index < samples.len() {
        seq![samples[index]]
    } else {
        seq![]
    }
}

/// What is read at the first `count` of a row of positions.
pub open spec fn read_along(
    samples: Seq<Sample>,
    position: spec_fn(nat) -> Number,
    count: nat,
) -> Seq<Sample>
    decreases count,
{
    if count == 0 {
        seq![]
    } else {
        let before = (count - 1) as nat;
        read_along(samples, position, before) + read_at(samples, position(before))
    }
}

/// A speed counts as one if it rounds to within `2^-23` of it.
pub open spec fn near_one(speed: Number) -> bool {
    let d = number::difference(Width::Single, speed, sample::one(false));
    number::is_finite(Width::Single, d) && number::magnitude(Width::Single, d) < pow2(126)
}

/// At how many positions `length` samples are read at a speed.
pub open spec fn sped_length(length: nat, speed: Number) -> nat {
    as_index(number::quotient(Width::Double, index_number(length), number::widened(speed)))
}

/// Where the `i`th read at a speed lies.
pub open spec fn sped_position(speed: Number, i: nat) -> Number {
    number::product(Width::Double, index_number(i), number::widened(speed))
}

/// Samples played at a speed.
pub open spec fn sped(samples: Seq<Sample>, speed: Number) -> Seq<Sample> {
    let count = sped_length(samples.len(), speed);
    if near_one(speed) || samples.len() == 0 || count == 0 {
        samples
    } else {
        read_along(samples, |i: nat| sped_position(speed, i), count)
    }
}

/// How many times more samples the rate `to` has than the rate `from`.
pub open spec fn rate_ratio(from: u32, to: u32) -> Number {
    number::quotient(Width::Double, index_number(to as nat), index_number(from as nat))
}

/// At how many positions `length` samples are read to change their rate.
pub open spec fn resampled_length(length: nat, from: u32, to: u32) -> nat {
    as_index(number::product(Width::Double, index_number(length), rate_ratio(from, to)))
}

/// Where the `i`th read lies when the rate changes.
pub open spec fn resampled_position(from: u32, to: u32, i: nat) -> Number {
    number::quotient(Width::Double, index_number(i), rate_ratio(from, to))
}

/// Samples of the rate `from`, at the rate `to`.
pub open spec fn resampled(samples: Seq<Sample>, from: u32, to: u32) -> Seq<Sample> {
    if from == to {
        samples
    } else {
        read_along(
            samples,
            |i: nat| resampled_position(from, to, i),
            resampled_length(samples.len(), from, to),
        )
    }
}

/// The most samples that one allocation can hold.
pub open spec fn allocation_limit() -> nat {
    isize::MAX as nat / 4
}

/// A copy of the samples.
pub fn copied(samples: &[Sample]) -> (r: Vec<Sample>)
    ensures
        r@ == samples@,
{
    let mut r: Vec<Sample> = Vec::with_capacity(samples.len());
    for i in 0..samples.len()
        invariant
            r@ =~= samples@.take(i as int),
    {
        r.push(samples[i]);
    }
    r
}

/// A number of double width with its fraction cut off, as an index.
fn to_index(x: Number) -> (r: usize)
    requires
        number::fits(Width::Double, x),
    ensures
        r == as_index(x),
{
    let top = rounding::infinity_of(Width::Double);
    if x.code > top || x.negative {
        0
    } else if x.code == top {
        usize::MAX
    } else {
        number::truncate_to(Width::Double, x, usize::MAX as u64) as usize
    }
}

/// An index or a length as a number of double width.
fn from_index(n: usize) -> (r: Number)
    ensures
        r == index_number(n as nat),
        number::fits(Width::Double, r),
{
    number::from_whole(Width::Double, false, n as u64)
}

/// `a * (1 - fraction) + b * fraction`.
fn blend(a: Sample, b: Sample, fraction: Number) -> (r: Number)
    requires
        number::fits(Width::Single, fraction),
    ensures
        r == blended(a, b, fraction),
        number::fits(Width::Single, r),
{
    let one = Number { negative: false, code: 0x3f80_0000 };
    let left = number::subtract(Width::Single, one, fraction);
    number::add_numbers(
        Width::Single,
        number::multiply(Width::Single, a.to_number(), left),
        number::multiply(Width::Single, b.to_number(), fraction),
    )
}

/// Appends what is read at a position.
fn push_at(samples: &[Sample], position: Number, out: &mut Vec<Sample>)
    requires
        number::fits(Width::Double, position),
    ensures
        final(out)@ == old(out)@ + read_at(samples@, position),
{
    let index = to_index(position);
    if index < samples.len() {
        if index + 1 < samples.len() {
            let past = number::subtract(Width::Double, position, from_index(index));
            let fraction = number::narrow(past);
            out.push(Sample::from_number(blend(samples[index], samples[index + 1], fraction)));
        } else {
            out.push(samples[index]);
        }
    }
    assert(out@ =~= old(out)@ + read_at(samples@, position));
}

/// `2^-23` is `2^126` units.
proof fn lemma_epsilon()
    ensures
        rounding::units(Width::Single, 0x3400_0000) == pow2(126),
{
    lemma2_to64();
    lemma_pow2_adds(23, 103);
    assert(0x3400_0000int / 0x80_0000 == 104);
    assert(0x3400_0000int % 0x80_0000 == 0);
}

/// Whether a speed counts as one.
pub fn is_near_one(speed: Sample) -> (r: bool)
    ensures
        r == near_one(speed.number()),
{
    let one = Number { negative: false, code: 0x3f80_0000 };
    let d = number::subtract(Width::Single, speed.to_number(), one);
    proof {
        lemma_epsilon();
        laws::law_codes_keep_order(Width::Single, d.code as nat, 0x3400_0000);
    }
    d.code < 0x3400_0000
}

/// At how many positions `length` samples are read at a speed.
pub fn length_at_speed(length: usize, speed: Sample) -> (r: usize)
    ensures
        r == sped_length(length as nat, speed.number()),
{
    to_index(number::divide(Width::Double, from_index(length), number::widen(speed.to_number())))
}

/// Applies a speed adjustment by resampling via linear interpolation: a speed
/// above one shortens the audio, one below lengthens it.
///
/// The output has to fit one allocation.
pub fn apply_speed(samples: &[Sample], speed: Sample) -> (out: Vec<Sample>)
    requires
        near_one(speed.number()) || samples@.len() == 0 || sped_length(
            samples@.len(),
            speed.number(),
        ) <= allocation_limit(),
    ensures
        out@ == sped(samples@, speed.number()),
{
    if is_near_one(speed) || samples.len() == 0 {
        return copied(samples);
    }
    let count = length_at_speed(samples.len(), speed);
    if count == 0 {
        return copied(samples);
    }
    let wide = number::widen(speed.to_number());
    let mut out: Vec<Sample> = Vec::with_capacity(count);
    let ghost position = |i: nat| sped_position(speed.number(), i);
    for i in 0..count
        invariant
            number::fits(Width::Double, wide),
            wide == number::widened(speed.number()),
            position == (|i: nat| sped_position(speed.number(), i)),
            out@ == read_along(samples@, position, i as nat),
    {
        let at = number::multiply(Width::Double, from_index(i), wide);
        assert(at == position(i as nat));
        push_at(samples, at, &mut out);
    }
    out
}

/// How many times more samples the rate `to` has than the rate `from`.
fn ratio_of(from: u32, to: u32) -> (r: Number)
    ensures
        r == rate_ratio(from, to),
        number::fits(Width::Double, r),
{
    number::divide(
        Width::Double,
        number::from_whole(Width::Double, false, to as u64),
        number::from_whole(Width::Double, false, from as u64),
    )
}

/// At how many positions `length` samples are read to change their rate.
pub fn length_at_rate(length: usize, from: u32, to: u32) -> (r: usize)
    ensures
        r == resampled_length(length as nat, from, to),
{
    to_index(number::multiply(Width::Double, from_index(length), ratio_of(from, to)))
}

/// Changes the rate of samples by linear interpolation.
///
/// The output has to fit one allocation.
pub fn resample(samples: &[Sample], from: u32, to: u32) -> (out: Vec<Sample>)
    requires
        from == to || resampled_length(samples@.len(), from, to) <= allocation_limit(),
    ensures
        out@ == resampled(samples@, from, to),
{
    if from == to {
        return copied(samples);
    }
    let ratio = ratio_of(from, to);
    let count = length_at_rate(samples.len(), from, to);
    let mut out: Vec<Sample> = Vec::with_capacity(count);
    let ghost position = |i: nat| resampled_position(from, to, i);
    for i in 0..count
        invariant
            number::fits(Width::Double, ratio),
            ratio == rate_ratio(from, to),
            position == (|i: nat| resampled_position(from, to, i)),
            out@ == read_along(samples@, position, i as nat),
    {
        let at = number::divide(Width::Double, from_index(i), ratio);
        assert(at == position(i as nat));
        push_at(samples, at, &mut out);
    }
    out
}

} // verus!
