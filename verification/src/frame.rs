//! Decoded frames, and their reduction to one channel.

use crate::laws;
use crate::media::Layout;
use crate::media::SampleFormat;
use crate::number;
use crate::number::Number;
use crate::pcm;
use crate::rounding;
use crate::rounding::Width;
use crate::sample;
use crate::sample::Sample;
use crate::speed;
use vstd::arithmetic::div_mod::*;
use vstd::arithmetic::power2::*;
use vstd::prelude::*;

verus! {

/// A frame that a decoder gave.
#[derive(Debug)]
pub struct DecodedFrame {
    pub rate: u32,
    pub channels: u16,
    /// The number of samples in each channel.
    pub samples: usize,
    pub format: SampleFormat,
    pub planes: Vec<Vec<u8>>,
}

/// The 32-bit two's complement integer that four bytes stand for, the lowest
/// first.
pub open spec fn i32_of_bytes(b0: u8, b1: u8, b2: u8, b3: u8) -> int {
    let n = u32_of_bytes(b0, b1, b2, b3);
    if n < 0x8000_0000 {
        n
    } else {
        n - 0x1_0000_0000
    }
}

/// The unsigned integer that four bytes stand for, the lowest first.
pub open spec fn u32_of_bytes(b0: u8, b1: u8, b2: u8, b3: u8) -> int {
    b0 + 0x100 * b1 + 0x1_0000 * b2 + 0x100_0000 * b3
}

/// The unsigned integer that the four bytes of a plane from `at` on stand for.
pub open spec fn word(plane: Seq<u8>, at: int) -> int {
    u32_of_bytes(plane[at], plane[at + 1], plane[at + 2], plane[at + 3])
}

/// The unsigned integer that the eight bytes of a plane from `at` on stand for.
pub open spec fn long_word(plane: Seq<u8>, at: int) -> int {
    word(plane, at) + 0x1_0000_0000 * word(plane, at + 4)
}

/// The 64-bit two's complement integer that the eight bytes of a plane from
/// `at` on stand for.
pub open spec fn i64_at(plane: Seq<u8>, at: int) -> int {
    let n = long_word(plane, at);
    if n < 0x8000_0000_0000_0000 {
        n
    } else {
        n - 0x1_0000_0000_0000_0000
    }
}

/// The number of double width that the eight bytes of a plane from `at` on
/// hold.
pub open spec fn double_at(plane: Seq<u8>, at: int) -> Number {
    let n = long_word(plane, at);
    if n < 0x8000_0000_0000_0000 {
        Number { negative: false, code: n as u64 }
    } else {
        Number { negative: true, code: (n - 0x8000_0000_0000_0000) as u64 }
    }
}

/// A signed integer as a number of single width.
pub open spec fn signed(v: int) -> Number {
    if v < 0 {
        number::whole(Width::Single, true, (-v) as nat)
    } else {
        number::whole(Width::Single, false, v as nat)
    }
}

/// An integer over a scale, as a number of single width.
pub open spec fn scaled(v: int, scale: nat) -> Number {
    number::quotient(Width::Single, signed(v), number::whole(Width::Single, false, scale))
}

/// The sample in the `slot`th place of a plane, silence where the plane is too
/// short or nothing is known of the format. Integers are read over full scale;
/// those of 8 bits are unsigned, with silence in the middle.
pub open spec fn stored(format: SampleFormat, plane: Seq<u8>, slot: int) -> Number {
    match format {
        SampleFormat::U8(_) => if slot < plane.len() {
            scaled(plane[slot] - 128, 0x80)
        } else {
            number::zero(false)
        },
        SampleFormat::I16(_) => {
            let at = slot * 2;
            if at + 1 < plane.len() {
                scaled(pcm::of_bytes(plane[at], plane[at + 1]), 0x8000)
            } else {
                number::zero(false)
            }
        },
        SampleFormat::I32(_) => {
            let at = slot * 4;
            if at + 3 < plane.len() {
                scaled(
                    i32_of_bytes(plane[at], plane[at + 1], plane[at + 2], plane[at + 3]),
                    0x8000_0000,
                )
            } else {
                number::zero(false)
            }
        },
        SampleFormat::I64(_) => {
            let at = slot * 8;
            if at + 7 < plane.len() {
                scaled(i64_at(plane, at), 0x8000_0000_0000_0000)
            } else {
                number::zero(false)
            }
        },
        SampleFormat::Single(_) => {
            let at = slot * 4;
            if at + 3 < plane.len() {
                Sample { bits: word(plane, at) as u32 }.number()
            } else {
                number::zero(false)
            }
        },
        SampleFormat::Double(_) => {
            let at = slot * 8;
            if at + 7 < plane.len() {
                number::narrowed(double_at(plane, at))
            } else {
                number::zero(false)
            }
        },
        SampleFormat::Unknown => number::zero(false),
    }
}

/// The layout of a format, if the format is known.
pub open spec fn layout_of(format: SampleFormat) -> Option<Layout> {
    match format {
        SampleFormat::Unknown => None,
        SampleFormat::U8(layout) => Some(layout),
        SampleFormat::I16(layout) => Some(layout),
        SampleFormat::I32(layout) => Some(layout),
        SampleFormat::I64(layout) => Some(layout),
        SampleFormat::Single(layout) => Some(layout),
        SampleFormat::Double(layout) => Some(layout),
    }
}

/// The layout of a format, if the format is known.
fn find_layout(format: SampleFormat) -> (r: Option<Layout>)
    ensures
        r == layout_of(format),
{
    match format {
        SampleFormat::Unknown => None,
        SampleFormat::U8(layout) => Some(layout),
        SampleFormat::I16(layout) => Some(layout),
        SampleFormat::I32(layout) => Some(layout),
        SampleFormat::I64(layout) => Some(layout),
        SampleFormat::Single(layout) => Some(layout),
        SampleFormat::Double(layout) => Some(layout),
    }
}

impl DecodedFrame {
    /// The planes that are read exist.
    pub open spec fn well_formed(self) -> bool {
        self.samples > 0 && self.channels > 0 ==> {
            &&& layout_of(self.format) == Some(Layout::Packed) ==> self.planes@.len() >= 1
            &&& layout_of(self.format) == Some(Layout::Planar) ==> self.planes@.len()
                >= self.channels
        }
    }

    /// The `i`th sample of a channel.
    pub open spec fn sample(self, i: int, channel: int) -> Number {
        match layout_of(self.format) {
            Some(Layout::Packed) => stored(
                self.format,
                self.planes@[0]@,
                i * self.channels + channel,
            ),
            Some(Layout::Planar) => stored(self.format, self.planes@[channel]@, i),
            None => number::zero(false),
        }
    }

    /// The sum of the `i`th samples of the first channels, from the first on.
    pub open spec fn channel_sum(self, i: int, channels: nat) -> Number
        decreases channels,
    {
        if channels == 0 {
            number::zero(false)
        } else {
            let before = (channels - 1) as nat;
            number::sum(
                Width::Single,
                self.channel_sum(i, before),
                self.sample(i, before as int),
            )
        }
    }

    /// The average of the `i`th samples of all channels.
    pub open spec fn average(self, i: int) -> Number {
        number::quotient(
            Width::Single,
            self.channel_sum(i, self.channels as nat),
            number::whole(Width::Single, false, self.channels as nat),
        )
    }

    /// The `i`th samples of all channels.
    pub open spec fn row(self, i: int) -> Seq<Number> {
        Seq::new(self.channels as nat, |channel: int| self.sample(i, channel))
    }

    /// The samples of all channels, one row after the other.
    pub open spec fn rows(self) -> Seq<Seq<Number>> {
        Seq::new(self.samples as nat, |i: int| self.row(i))
    }

    /// The frame as one channel.
    pub open spec fn mono(self) -> Seq<Sample> {
        Seq::new(self.samples as nat, |i: int| Sample::of(self.average(i)))
    }

    /// Whether the planes that are read exist.
    pub fn is_well_formed(&self) -> (r: bool)
        ensures
            r == self.well_formed(),
    {
        if self.samples == 0 || self.channels == 0 {
            return true;
        }
        match find_layout(self.format) {
            Some(Layout::Packed) => self.planes.len() >= 1,
            Some(Layout::Planar) => self.planes.len() >= self.channels as usize,
            None => true,
        }
    }
}

/// An integer with its sign over a scale, as a number of single width.
fn scale_down(negative: bool, magnitude: u64, scale: u64) -> (r: Number)
    requires
        negative ==> magnitude > 0,
    ensures
        r == scaled(
            if negative {
                -(magnitude as int)
            } else {
                magnitude as int
            },
            scale as nat,
        ),
        number::fits(Width::Single, r),
{
    number::divide(
        Width::Single,
        number::from_whole(Width::Single, negative, magnitude),
        number::from_whole(Width::Single, false, scale),
    )
}

/// The unsigned integer that the four bytes of a plane from `at` on stand for.
fn word_at(plane: &[u8], at: usize) -> (r: u32)
    requires
        at + 3 < plane@.len(),
    ensures
        r == word(plane@, at as int),
{
    plane[at] as u32 + 0x100 * plane[at + 1] as u32 + 0x1_0000 * plane[at + 2] as u32 + 0x100_0000
        * plane[at + 3] as u32
}

/// The unsigned integer that the eight bytes of a plane from `at` on stand for.
fn long_word_at(plane: &[u8], at: usize) -> (r: u64)
    requires
        at + 7 < plane@.len(),
    ensures
        r == long_word(plane@, at as int),
{
    assert(at + 7 < plane.len());
    word_at(plane, at) as u64 + 0x1_0000_0000 * word_at(plane, at + 4) as u64
}

/// The sample in the `slot`th place of a plane.
fn read_slot(format: SampleFormat, plane: &[u8], slot: u128) -> (r: Number)
    requires
        slot <= 0xff_ffff_ffff_ffff_ffff_ffff,
    ensures
        r == stored(format, plane@, slot as int),
        number::fits(Width::Single, r),
{
    let length = plane.len() as u128;
    let silence = Number { negative: false, code: 0 };
    match format {
        SampleFormat::U8(_) => if slot < length {
            let n = plane[slot as usize] as u64;
            if n < 128 {
                scale_down(true, 128 - n, 0x80)
            } else {
                scale_down(false, n - 128, 0x80)
            }
        } else {
            silence
        },
        SampleFormat::I16(_) => if slot * 2 + 1 < length {
            let at = (slot * 2) as usize;
            let v = pcm::from_bytes(plane[at], plane[at + 1]) as i64;
            if v < 0 {
                scale_down(true, (-v) as u64, 0x8000)
            } else {
                scale_down(false, v as u64, 0x8000)
            }
        } else {
            silence
        },
        SampleFormat::I32(_) => if slot * 4 + 3 < length {
            let n = word_at(plane, (slot * 4) as usize) as u64;
            if n < 0x8000_0000 {
                scale_down(false, n, 0x8000_0000)
            } else {
                scale_down(true, 0x1_0000_0000 - n, 0x8000_0000)
            }
        } else {
            silence
        },
        SampleFormat::I64(_) => if slot * 8 + 7 < length {
            let n = long_word_at(plane, (slot * 8) as usize);
            if n < 0x8000_0000_0000_0000 {
                scale_down(false, n, 0x8000_0000_0000_0000)
            } else {
                scale_down(true, (u64::MAX - n) + 1, 0x8000_0000_0000_0000)
            }
        } else {
            silence
        },
        SampleFormat::Single(_) => if slot * 4 + 3 < length {
            Sample { bits: word_at(plane, (slot * 4) as usize) }.to_number()
        } else {
            silence
        },
        SampleFormat::Double(_) => if slot * 8 + 7 < length {
            let n = long_word_at(plane, (slot * 8) as usize);
            if n < 0x8000_0000_0000_0000 {
                number::narrow(Number { negative: false, code: n })
            } else {
                number::narrow(Number { negative: true, code: n - 0x8000_0000_0000_0000 })
            }
        } else {
            silence
        },
        SampleFormat::Unknown => silence,
    }
}

/// The `i`th sample of a channel.
fn read_sample(frame: &DecodedFrame, i: usize, channel: usize) -> (r: Number)
    requires
        frame.well_formed(),
        i < frame.samples,
        channel < frame.channels,
    ensures
        r == frame.sample(i as int, channel as int),
        number::fits(Width::Single, r),
{
    match find_layout(frame.format) {
        Some(Layout::Packed) => {
            let channels = frame.channels as u128;
            assert(0 <= i * channels <= 0xffff_ffff_ffff_ffff * 0xffff) by (nonlinear_arith)
                requires
                    0 <= i <= 0xffff_ffff_ffff_ffff,
                    0 <= channels <= 0xffff,
            ;
            let slot = i as u128 * channels + channel as u128;
            read_slot(frame.format, frame.planes[0].as_slice(), slot)
        },
        Some(Layout::Planar) => read_slot(
            frame.format,
            frame.planes[channel].as_slice(),
            i as u128,
        ),
        None => Number { negative: false, code: 0 },
    }
}

/// Appends a frame, reduced to one channel: the average of all channels.
pub fn append_mono(frame: &DecodedFrame, out: &mut Vec<Sample>)
    requires
        frame.well_formed(),
    ensures
        final(out)@ == old(out)@ + frame.mono(),
{
    let ghost before = out@;
    let divisor = number::from_whole(Width::Single, false, frame.channels as u64);
    for i in 0..frame.samples
        invariant
            frame.well_formed(),
            number::fits(Width::Single, divisor),
            divisor == number::whole(Width::Single, false, frame.channels as nat),
            out@ =~= before + frame.mono().take(i as int),
    {
        let mut sum = Number { negative: false, code: 0 };
        for channel in 0..frame.channels as usize
            invariant
                frame.well_formed(),
                i < frame.samples,
                number::fits(Width::Single, sum),
                sum == frame.channel_sum(i as int, channel as nat),
        {
            let next = read_sample(frame, i, channel);
            sum = number::add_numbers(Width::Single, sum, next);
        }
        out.push(Sample::from_number(number::divide(Width::Single, sum, divisor)));
    }
    assert(frame.mono().take(frame.samples as int) =~= frame.mono());
}

/// Dividing a finite number by one changes nothing.
proof fn lemma_over_one(x: Number)
    requires
        number::is_finite(Width::Single, x),
    ensures
        number::quotient(Width::Single, x, number::whole(Width::Single, false, 1)) == x,
{
    let one = number::whole(Width::Single, false, 1);
    lemma2_to64();
    lemma_pow2_pos(149);
    lemma_pow2_pos(23);
    laws::law_rounding_keeps_multiples(Width::Single, 1, 149);
    assert(number::magnitude(Width::Single, one) == 1 * pow2(149));
    assert(1 * pow2(149) == pow2(149));
    assert(rounding::units(Width::Single, 0) == 0);
    let m = number::magnitude(Width::Single, x);
    laws::law_rounding_respects_values(Width::Single, m * pow2(149), pow2(149), x.code as nat);
}

/// A frame of one channel keeps the values of its samples.
pub proof fn law_one_channel_is_kept(frame: DecodedFrame, i: int)
    requires
        frame.channels == 1,
        number::is_finite(Width::Single, frame.sample(i, 0)),
    ensures
        number::is_finite(Width::Single, frame.average(i)),
        number::value(Width::Single, frame.average(i)) == number::value(
            Width::Single,
            frame.sample(i, 0),
        ),
{
    let x = frame.sample(i, 0);
    lemma_pow2_pos(23);
    assert(rounding::units(Width::Single, 0) == 0);
    reveal_with_fuel(DecodedFrame::channel_sum, 2);
    let sum = frame.channel_sum(i, 1);
    assert(sum == number::sum(Width::Single, number::zero(false), x));
    laws::law_rounding_keeps_values(Width::Single, x.code as nat);
    laws::law_codes_keep_order(Width::Single, 0, x.code as nat);
    lemma_over_one(sum);
}

/// A short integer over a power of two is exact.
proof fn lemma_scaled_exact(v: int, k: nat)
    requires
        -0x8000 <= v <= 0x8000,
        k <= 15,
    ensures
        number::is_finite(Width::Single, scaled(v, pow2(k))),
        number::value(Width::Single, scaled(v, pow2(k))) * pow2(k) == v * pow2(149),
{
    lemma2_to64();
    let n: nat = if v < 0 {
        (-v) as nat
    } else {
        v as nat
    };
    let one = pow2(149);
    let scale = pow2(k);
    let step = pow2((149 - k) as nat);
    lemma_pow2_pos(149);
    lemma_pow2_pos(23);
    lemma_pow2_pos(k);
    lemma_pow2_adds(k, (149 - k) as nat);
    if k < 15 {
        lemma_pow2_strictly_increases(k, 15);
    }
    assert(rounding::units(Width::Single, 0) == 0);
    laws::law_rounding_keeps_multiples(Width::Single, n, 149);
    laws::law_rounding_keeps_multiples(Width::Single, scale, 149);
    laws::law_rounding_keeps_multiples(Width::Single, n, (149 - k) as nat);
    let b = scale * one;
    assert(b > 0) by (nonlinear_arith)
        requires
            b == scale * one,
            scale > 0,
            one > 0,
    ;
    let c = rounding::nearest(Width::Single, n * step, 1);
    assert((n * one) * one == (n * step) * b) by (nonlinear_arith)
        requires
            one == scale * step,
            b == scale * one,
    ;
    laws::law_rounding_respects_values(Width::Single, (n * one) * one, b, c);
    assert((n * step) * scale == n * one) by (nonlinear_arith)
        requires
            one == scale * step,
    ;
    let m = n * step;
    if v < 0 {
        assert((-(m as int)) * scale == -(m * scale)) by (nonlinear_arith);
        assert(v * one == -(n * one)) by (nonlinear_arith)
            requires
                v == -(n as int),
        ;
    }
}

/// A 16-bit sample `v` is read as `v / 32768`, without any rounding.
pub proof fn law_i16_is_exact(v: int)
    requires
        -0x8000 <= v < 0x8000,
    ensures
        number::is_finite(Width::Single, scaled(v, 0x8000)),
        number::value(Width::Single, scaled(v, 0x8000)) * 0x8000 == v * pow2(149),
{
    lemma2_to64();
    lemma_scaled_exact(v, 15);
}

/// An 8-bit sample `b` is read as `(b - 128) / 128`, without any rounding.
pub proof fn law_u8_is_exact(b: u8)
    ensures
        number::is_finite(Width::Single, scaled(b - 128, 0x80)),
        number::value(Width::Single, scaled(b - 128, 0x80)) * 0x80 == (b - 128) * pow2(149),
{
    lemma2_to64();
    lemma_scaled_exact(b - 128, 7);
}

/// A double that has the value of a single is read as that single.
pub proof fn law_double_keeps_singles(x: Number)
    requires
        number::is_finite(Width::Single, x),
    ensures
        number::narrowed(number::widened(x)) == x,
{
    speed::lemma_widened(x);
    lemma_pow2_pos(925);
    let m = number::magnitude(Width::Single, x);
    laws::law_rounding_respects_values(Width::Single, m * pow2(925), pow2(925), x.code as nat);
}

/// A sample of `n / 32768`, scaled to full scale, lies less than one below `n`.
proof fn lemma_one_step(n: nat, x: Number)
    requires
        0 < n <= 0x8000,
        number::is_finite(Width::Single, x),
        number::magnitude(Width::Single, x) == n * pow2(134),
    ensures
        number::whole_part(
            Width::Single,
            number::product(Width::Single, x, sample::full_scale()),
        ) == n - 1,
{
    let one = pow2(149);
    let step = pow2(134);
    lemma2_to64();
    lemma_pow2_pos(149);
    lemma_pow2_pos(134);
    lemma_pow2_adds(15, 134);
    lemma_pow2_adds(9, 140);
    lemma_pow2_adds(6, 134);
    assert(n * step <= one) by (nonlinear_arith)
        requires
            n <= 0x8000,
            one == 0x8000 * step,
    ;
    sample::lemma_scaled(x);
    let a = (n * step) * (32767 * one);
    let c = rounding::nearest(Width::Single, a, one);
    // no less than `n - 1`
    let below = (n - 1) as nat;
    laws::law_rounding_keeps_multiples(Width::Single, below, 149);
    let low = rounding::nearest(Width::Single, below * one, 1);
    assert((below * one) * one <= a) by (nonlinear_arith)
        requires
            n == below + 1,
            n <= 0x8000,
            one == 0x8000 * step,
            a == (n * step) * (32767 * one),
            step > 0,
    ;
    laws::law_rounding_respects_values(Width::Single, a, one, low);
    laws::law_codes_keep_order(Width::Single, c, low);
    // no more than a value below `n`
    let (s, k): (nat, nat) = if n < 64 {
        (n * 32767, 134)
    } else {
        ((n * 512 - 1) as nat, 140)
    };
    laws::law_rounding_keeps_multiples(Width::Single, s, k);
    let high = rounding::nearest(Width::Single, s * pow2(k), 1);
    assert(a <= (s * pow2(k)) * one && s * pow2(k) < n * one) by {
        if n < 64 {
            assert(a == (s * step) * one) by (nonlinear_arith)
                requires
                    a == (n * step) * (32767 * one),
                    s == n * 32767,
            ;
            assert((n * 32767) * step < n * (0x8000 * step)) by (nonlinear_arith)
                requires
                    n > 0,
                    step > 0,
            ;
        } else {
            let g = pow2(140);
            assert(g == 64 * step);
            assert(s * g == n * (512 * g) - g) by (nonlinear_arith)
                requires
                    s == n * 512 - 1,
            ;
            assert((n * step) * 32767 <= s * g) by (nonlinear_arith)
                requires
                    s * g == n * (512 * g) - g,
                    g == 64 * step,
                    n >= 64,
            ;
            assert(a == ((n * step) * 32767) * one) by (nonlinear_arith)
                requires
                    a == (n * step) * (32767 * one),
            ;
            assert(((n * step) * 32767) * one <= (s * g) * one) by (nonlinear_arith)
                requires
                    (n * step) * 32767 <= s * g,
            ;
        }
    }
    laws::law_rounding_respects_values(Width::Single, a, one, high);
    laws::law_codes_keep_order(Width::Single, high, c);
    let u = rounding::units(Width::Single, c);
    assert(n * one == one * below + one) by (nonlinear_arith)
        requires
            n == below + 1,
    ;
    lemma_fundamental_div_mod_converse(u as int, one as int, below as int, u - one * below);
}

/// A 16-bit sample that is decoded and written again comes one step nearer to
/// silence; silence stays.
pub proof fn law_i16_loses_one_step(v: int)
    requires
        -0x8000 <= v < 0x8000,
    ensures
        sample::quantized(Sample::of(scaled(v, 0x8000))) == if v > 0 {
            v - 1
        } else if v < 0 {
            v + 1
        } else {
            0
        },
{
    law_i16_is_exact(v);
    let x = scaled(v, 0x8000);
    let one = pow2(149);
    let step = pow2(134);
    lemma2_to64();
    lemma_pow2_pos(149);
    lemma_pow2_pos(134);
    lemma_pow2_adds(15, 134);
    let n: nat = if v < 0 {
        (-v) as nat
    } else {
        v as nat
    };
    let m = number::magnitude(Width::Single, x);
    assert(v * one == (v * step) * 0x8000) by (nonlinear_arith)
        requires
            one == 0x8000 * step,
    ;
    assert(number::value(Width::Single, x) == v * step);
    assert(m == n * step) by (nonlinear_arith)
        requires
            m == v * step || m == -(v * step),
            n == v || n == -v,
            n >= 0,
            m >= 0,
            step > 0,
    ;
    assert(n * step <= one) by (nonlinear_arith)
        requires
            n <= 0x8000,
            one == 0x8000 * step,
    ;
    assert(Sample::of(x).number() == x);
    assert(sample::clamped(x) == x);
    sample::lemma_scaled(x);
    if n > 0 {
        lemma_one_step(n, x);
        assert(v < 0 ==> x.negative) by {
            assert(v < 0 ==> v * step < 0) by (nonlinear_arith)
                requires
                    step > 0,
            ;
        }
        assert(v > 0 ==> !x.negative) by {
            assert(v > 0 ==> v * step > 0) by (nonlinear_arith)
                requires
                    step > 0,
            ;
        }
    } else {
        assert(0 * step == 0 && 0 * (32767 * one) == 0);
        lemma_pow2_pos(23);
        assert(rounding::units(Width::Single, 0) == 0);
        laws::law_rounding_respects_values(Width::Single, 0, one, 0);
        lemma_fundamental_div_mod_converse(0, one as int, 0, 0);
    }
}

} // verus!
