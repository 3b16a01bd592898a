//! Laws of the samples in decoded frames: what each format's bytes stand for,
//! and where they lie.

use crate::frame;
use crate::frame::DecodedFrame;
use crate::interpolate;
use crate::laws;
use crate::media::Layout;
use crate::media::SampleFormat;
use crate::number;
use crate::number::Number;
use crate::rounding;
use crate::rounding::Width;
use vstd::arithmetic::power2::*;
use vstd::prelude::*;

verus! {

/// All channels of the format lie in one plane.
pub open spec fn is_packed(format: SampleFormat) -> bool {
    match format {
        SampleFormat::Unknown => false,
        SampleFormat::U8(layout) => layout == Layout::Packed,
        SampleFormat::I16(layout) => layout == Layout::Packed,
        SampleFormat::I32(layout) => layout == Layout::Packed,
        SampleFormat::I64(layout) => layout == Layout::Packed,
        SampleFormat::Single(layout) => layout == Layout::Packed,
        SampleFormat::Double(layout) => layout == Layout::Packed,
    }
}

/// The plane that holds a channel.
pub open spec fn plane_of(f: DecodedFrame, channel: int) -> Seq<u8> {
    if is_packed(f.format) {
        f.planes@[0]@
    } else {
        f.planes@[channel]@
    }
}

/// Where in that plane, in samples, the `i`th of the channel lies.
pub open spec fn place_of(f: DecodedFrame, i: int, channel: int) -> int {
    if is_packed(f.format) {
        i * f.channels + channel
    } else {
        i
    }
}

/// The number that four bytes stand for, the first being the lowest digit.
pub open spec fn four(plane: Seq<u8>, at: int) -> int {
    plane[at] + 0x100 * (plane[at + 1] + 0x100 * (plane[at + 2] + 0x100 * plane[at + 3]))
}

/// The number that eight bytes stand for, the first being the lowest digit.
pub open spec fn eight(plane: Seq<u8>, at: int) -> int {
    four(plane, at) + 0x1_0000_0000 * four(plane, at + 4)
}

/// A number without a sign, read as one with a sign in this many values.
pub open spec fn with_sign(n: int, values: int) -> int {
    if 2 * n < values {
        n
    } else {
        n - values
    }
}

/// A sample of 8 bits is its byte less 128, over 128; past the end of the plane
/// it is silence.
pub proof fn law_u8_samples(f: DecodedFrame, i: int, channel: int)
    requires
        f.format is U8,
        0 <= i < f.samples,
        0 <= channel < f.channels,
    ensures
        ({
            let x = f.sample(i, channel);
            let (plane, at) = (plane_of(f, channel), place_of(f, i, channel));
            &&& number::is_finite(Width::Single, x)
            &&& at < plane.len() ==> number::value(Width::Single, x) * 0x80 == (plane[at] - 128)
                * pow2(149)
            &&& at >= plane.len() ==> x == number::zero(false)
        }),
{
    lemma_place(f, i, channel);
    let (plane, at) = (plane_of(f, channel), place_of(f, i, channel));
    if at < plane.len() {
        frame::law_u8_is_exact(plane[at]);
    }
}

/// A sample of 16 bits is its integer over `2^15`; past the end of the plane it
/// is silence.
pub proof fn law_i16_samples(f: DecodedFrame, i: int, channel: int)
    requires
        f.format is I16,
        0 <= i < f.samples,
        0 <= channel < f.channels,
    ensures
        ({
            let x = f.sample(i, channel);
            let (plane, at) = (plane_of(f, channel), 2 * place_of(f, i, channel));
            &&& number::is_finite(Width::Single, x)
            &&& at + 1 < plane.len() ==> number::value(Width::Single, x) * 0x8000 == with_sign(
                plane[at] + 0x100 * plane[at + 1],
                0x1_0000,
            ) * pow2(149)
            &&& at + 1 >= plane.len() ==> x == number::zero(false)
        }),
{
    lemma_place(f, i, channel);
    let (plane, at) = (plane_of(f, channel), 2 * place_of(f, i, channel));
    if at + 1 < plane.len() {
        frame::law_i16_is_exact(with_sign(plane[at] + 0x100 * plane[at + 1], 0x1_0000));
    }
}

/// Where a sample lies is not before the start.
proof fn lemma_place(f: DecodedFrame, i: int, channel: int)
    requires
        0 <= i,
        0 <= channel,
    ensures
        place_of(f, i, channel) >= 0,
{
    assert(i * f.channels >= 0) by (nonlinear_arith)
        requires
            i >= 0,
            f.channels >= 0,
    ;
}

/// An integer over a power of two is close to the exact quotient.
proof fn lemma_scaled_close(v: int, k: nat)
    requires
        k == 31 || k == 63,
        -(pow2(k) as int) <= v <= pow2(k),
    ensures
        ({
            let x = frame::scaled(v, pow2(k));
            &&& number::is_finite(Width::Single, x)
            &&& interpolate::size(
                number::value(Width::Single, x) * pow2(k) - v * pow2(149),
            ) * 0x40_0000 <= interpolate::size(v) * pow2(149)
        }),
{
    lemma2_to64();
    lemma2_to64_rest();
    let one = pow2(149) as int;
    let scale = pow2(k) as int;
    lemma_pow2_pos(149);
    lemma_pow2_pos(k);
    lemma_pow2_pos(23);
    lemma_pow2_adds(k, 149);
    lemma_pow2_strictly_increases(100, 149);
    lemma_pow2_adds(64, 36);
    assert(0x100_0000_0000_0000_0000_0000 <= one);
    assert(rounding::units(Width::Single, 0) == 0);
    let n = interpolate::size(v);
    let whole = number::whole(Width::Single, false, n as nat);
    let b = scale * one;
    assert(1 * pow2(149 + k) == b);
    laws::law_rounding_keeps_multiples(Width::Single, 1, 149 + k);
    let top = rounding::nearest(Width::Single, b as nat, 1);
    assert(b > 0 && 0 <= n * one <= b) by (nonlinear_arith)
        requires
            0 <= n <= scale,
            scale > 0,
            one > 0,
            b == scale * one,
    ;
    laws::law_rounding_respects_values(Width::Single, (n * one) as nat, 1, top);
    laws::law_codes_keep_order(Width::Single, 0, top);
    laws::law_rounding_error(Width::Single, (n * one) as nat, 1);
    let c = rounding::nearest(Width::Single, (n * one) as nat, 1);
    laws::law_codes_keep_order(Width::Single, top, c);
    let w = rounding::units(Width::Single, c) as int;
    let first = laws::distance(n * one, w);
    assert(first * 0x100_0000 <= n * one + 0x80_0000);
    // the quotient
    lemma_pow2_adds(23, 126);
    assert(0x3f80_0000int / 0x80_0000 == 127 && 0x3f80_0000int % 0x80_0000 == 0);
    assert(rounding::units(Width::Single, 0x3f80_0000) == one);
    assert(w * one <= one * b) by (nonlinear_arith)
        requires
            w <= b,
            one > 0,
    ;
    laws::law_rounding_respects_values(Width::Single, (w * one) as nat, b as nat, 0x3f80_0000);
    laws::law_rounding_error(Width::Single, (w * one) as nat, b as nat);
    let r = rounding::units(
        Width::Single,
        rounding::nearest(Width::Single, (w * one) as nat, b as nat),
    ) as int;
    let second = laws::distance(w, r * scale);
    assert(r * b == (r * scale) * one) by (nonlinear_arith)
        requires
            b == scale * one,
    ;
    assert(laws::distance(w * one, r * b) == second * one) by (nonlinear_arith)
        requires
            r * b == (r * scale) * one,
            one > 0,
            second == if w < r * scale {
                r * scale - w
            } else {
                w - r * scale
            },
            laws::distance(w * one, r * b) == if w * one < r * b {
                r * b - w * one
            } else {
                w * one - r * b
            },
    ;
    assert(second * 0x100_0000 <= w + 0x80_0000 * scale) by (nonlinear_arith)
        requires
            (second * one) * 0x100_0000 <= w * one + 0x80_0000 * b,
            b == scale * one,
            one > 0,
    ;
    if n == 0 {
        assert(0 * one == 0);
        laws::law_rounding_respects_values(Width::Single, 0, 1, 0);
        assert(w == 0);
        assert(0 * one == 0);
        laws::law_rounding_respects_values(Width::Single, 0, b as nat, 0);
        assert(r == 0);
        assert(0 * scale == 0);
    } else {
        assert(n * one >= one) by (nonlinear_arith)
            requires
                n >= 1,
                one > 0,
        ;
        assert(laws::distance(n * one, r * scale) * 0x40_0000 <= n * one);
    }
    let x = frame::scaled(v, scale as nat);
    assert(number::magnitude(Width::Single, x) == r);
    if v < 0 {
        assert((-r) * scale == -(r * scale) && v * one == -(n * one)) by (nonlinear_arith)
            requires
                v == -n,
        ;
    }
}

/// A sample of 32 bits is its integer over `2^31`, up to rounding; past the end
/// of the plane it is silence.
pub proof fn law_i32_samples(f: DecodedFrame, i: int, channel: int)
    requires
        f.format is I32,
        0 <= i < f.samples,
        0 <= channel < f.channels,
    ensures
        ({
            let x = f.sample(i, channel);
            let (plane, at) = (plane_of(f, channel), 4 * place_of(f, i, channel));
            let v = with_sign(four(plane, at), 0x1_0000_0000);
            &&& number::is_finite(Width::Single, x)
            &&& at + 3 < plane.len() ==> interpolate::size(
                number::value(Width::Single, x) * 0x8000_0000 - v * pow2(149),
            ) * 0x40_0000 <= interpolate::size(v) * pow2(149)
            &&& at + 3 >= plane.len() ==> x == number::zero(false)
        }),
{
    lemma_place(f, i, channel);
    lemma2_to64();
    let (plane, at) = (plane_of(f, channel), 4 * place_of(f, i, channel));
    if at + 3 < plane.len() {
        lemma_scaled_close(with_sign(four(plane, at), 0x1_0000_0000), 31);
    }
}

/// A sample of 64 bits is its integer over `2^63`, up to rounding; past the end
/// of the plane it is silence.
pub proof fn law_i64_samples(f: DecodedFrame, i: int, channel: int)
    requires
        f.format is I64,
        0 <= i < f.samples,
        0 <= channel < f.channels,
    ensures
        ({
            let x = f.sample(i, channel);
            let (plane, at) = (plane_of(f, channel), 8 * place_of(f, i, channel));
            let v = with_sign(eight(plane, at), 0x1_0000_0000_0000_0000);
            &&& number::is_finite(Width::Single, x)
            &&& at + 7 < plane.len() ==> interpolate::size(
                number::value(Width::Single, x) * 0x8000_0000_0000_0000 - v * pow2(149),
            ) * 0x40_0000 <= interpolate::size(v) * pow2(149)
            &&& at + 7 >= plane.len() ==> x == number::zero(false)
        }),
{
    lemma_place(f, i, channel);
    lemma2_to64();
    lemma2_to64_rest();
    let (plane, at) = (plane_of(f, channel), 8 * place_of(f, i, channel));
    if at + 7 < plane.len() {
        lemma_scaled_close(with_sign(eight(plane, at), 0x1_0000_0000_0000_0000), 63);
    }
}

/// A sample of single width is the one whose bits its four bytes are; past the
/// end of the plane it is silence.
pub proof fn law_single_samples(f: DecodedFrame, i: int, channel: int)
    requires
        f.format is Single,
        0 <= i < f.samples,
        0 <= channel < f.channels,
    ensures
        ({
            let x = f.sample(i, channel);
            let (plane, at) = (plane_of(f, channel), 4 * place_of(f, i, channel));
            &&& x.code < 0x8000_0000
            &&& at + 3 < plane.len() ==> four(plane, at) == x.code + if x.negative {
                0x8000_0000int
            } else {
                0int
            }
            &&& at + 3 >= plane.len() ==> x == number::zero(false)
        }),
{
    lemma_place(f, i, channel);
}

/// A sample of double width is the number whose bits its eight bytes are, brought
/// to single width: a finite one up to rounding, or to infinity if it is too
/// large; past the end of the plane it is silence.
pub proof fn law_double_samples(f: DecodedFrame, i: int, channel: int, y: Number)
    requires
        f.format is Double,
        0 <= i < f.samples,
        0 <= channel < f.channels,
        y.code < 0x8000_0000_0000_0000,
        eight(plane_of(f, channel), 8 * place_of(f, i, channel)) == y.code + if y.negative {
            0x8000_0000_0000_0000int
        } else {
            0int
        },
    ensures
        ({
            let x = f.sample(i, channel);
            let (plane, at) = (plane_of(f, channel), 8 * place_of(f, i, channel));
            let m = number::magnitude(Width::Double, y);
            let n = number::magnitude(Width::Single, x) * pow2(925);
            &&& at + 7 >= plane.len() ==> x == number::zero(false)
            &&& at + 7 < plane.len() && number::is_nan(Width::Double, y) ==> number::is_nan(
                Width::Single,
                x,
            )
            &&& at + 7 < plane.len() && number::is_infinite(Width::Double, y) ==> x
                == number::infinite(Width::Single, y.negative)
            &&& at + 7 < plane.len() && number::is_finite(Width::Double, y) ==> {
                &&& x.negative == y.negative
                &&& !number::is_nan(Width::Single, x)
                &&& number::is_finite(Width::Single, x) ==> interpolate::size(m - n) * 0x100_0000
                    <= m + 0x80_0000 * pow2(925)
                &&& number::is_infinite(Width::Single, x) ==> m >= rounding::units(
                    Width::Single,
                    0x7f7f_ffff,
                ) * pow2(925)
            }
        }),
{
    lemma_place(f, i, channel);
    lemma2_to64();
    let (plane, at) = (plane_of(f, channel), 8 * place_of(f, i, channel));
    if at + 7 < plane.len() {
        assert(frame::long_word(plane, at) == eight(plane, at));
        assert(frame::double_at(plane, at) == y);
        if number::is_finite(Width::Double, y) {
            let m = number::magnitude(Width::Double, y);
            lemma_pow2_pos(925);
            laws::law_rounding_respects_values(Width::Single, m, pow2(925), 0x7f7f_ffff);
            if number::is_finite(Width::Single, f.sample(i, channel)) {
                laws::law_rounding_error(Width::Single, m, pow2(925));
            }
        }
    }
}

/// Samples of an unknown format are silence.
pub proof fn law_unknown_samples(f: DecodedFrame, i: int, channel: int)
    requires
        f.format is Unknown,
    ensures
        f.sample(i, channel) == number::zero(false),
{
}

} // verus!
