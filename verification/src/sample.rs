//! Audio samples, and their reduction to 16 bits.

use crate::laws;
use crate::number;
use crate::number::Number;
use crate::rounding;
use crate::rounding::Width;
use vstd::arithmetic::div_mod::*;
use vstd::arithmetic::mul::*;
use vstd::arithmetic::power2::*;
use vstd::prelude::*;

verus! {

/// One audio sample: a floating-point number of single width, by its bits.
#[derive(Clone, Copy, PartialEq, Eq, Debug, Structural)]
pub struct Sample {
    pub bits: u32,
}

impl Sample {
    /// The number that the bits stand for.
    pub open spec fn number(self) -> Number {
        Number {
            negative: self.bits >= 0x8000_0000,
            code: (self.bits as int % 0x8000_0000) as u64,
        }
    }

    /// The sample whose bits stand for `x`.
    pub open spec fn of(x: Number) -> Sample {
        Sample {
            bits: if x.negative {
                (x.code + 0x8000_0000) as u32
            } else {
                x.code as u32
            },
        }
    }

    /// The number that the bits stand for.
    pub fn to_number(self) -> (r: Number)
        ensures
            r == self.number(),
            number::fits(Width::Single, r),
    {
        Number { negative: self.bits >= 0x8000_0000, code: (self.bits % 0x8000_0000) as u64 }
    }

    /// The sample whose bits stand for `x`.
    pub fn from_number(x: Number) -> (r: Sample)
        requires
            number::fits(Width::Single, x),
        ensures
            r == Sample::of(x),
            r.number() == x,
    {
        if x.negative {
            Sample { bits: x.code as u32 + 0x8000_0000 }
        } else {
            Sample { bits: x.code as u32 }
        }
    }
}

/// One, with a sign.
pub open spec fn one(negative: bool) -> Number {
    Number { negative, code: 0x3f80_0000 }
}

/// What full scale is multiplied by: the largest 16-bit amplitude.
pub open spec fn full_scale() -> Number {
    number::whole(Width::Single, false, 32767)
}

/// `x`, or the nearer end of the range from minus one to one if `x` lies
/// outside of it. What is no number stays so.
pub open spec fn clamped(x: Number) -> Number {
    if number::is_nan(Width::Single, x) {
        x
    } else if number::is_infinite(Width::Single, x) || number::magnitude(Width::Single, x) > pow2(
        149,
    ) {
        one(x.negative)
    } else {
        x
    }
}

/// The 16-bit integer that `x` becomes when its fraction is cut off: the
/// nearest end of the range for what lies outside, zero for what is no number.
pub open spec fn as_i16(x: Number) -> int {
    let most: nat = if x.negative {
        32768
    } else {
        32767
    };
    let n: nat = if number::is_infinite(Width::Single, x) {
        most
    } else if number::whole_part(Width::Single, x) < most {
        number::whole_part(Width::Single, x)
    } else {
        most
    };
    if number::is_nan(Width::Single, x) {
        0
    } else if x.negative {
        -(n as int)
    } else {
        n as int
    }
}

/// A sample as a 16-bit amplitude: clamped to the range from minus one to one,
/// scaled to full scale, its fraction cut off.
pub open spec fn quantized(s: Sample) -> int {
    as_i16(number::product(Width::Single, clamped(s.number()), full_scale()))
}

/// One is `2^149` units, and full scale 32767 times that.
proof fn lemma_scales()
    ensures
        rounding::units(Width::Single, 0x3f80_0000) == pow2(149),
        rounding::units(Width::Single, 0x46ff_fe00) == 32767 * pow2(149),
        full_scale() == (Number { negative: false, code: 0x46ff_fe00 }),
{
    lemma2_to64();
    assert(pow2(23) == 0x80_0000);
    lemma_pow2_adds(23, 126);
    assert(0x3f80_0000int / 0x80_0000 == 127);
    assert(0x3f80_0000int % 0x80_0000 == 0);
    lemma_pow2_adds(9, 140);
    assert(0x46ff_fe00int / 0x80_0000 == 141);
    assert(0x46ff_fe00int % 0x80_0000 == 0x7f_fe00);
    assert(0x80_0000 + 0x7f_fe00 == 32767 * 512);
    assert((32767 * 512) * pow2(140) == 32767 * (512 * pow2(140)));
    laws::law_rounding_keeps_values(Width::Single, 0x46ff_fe00);
}

/// `x`, clamped to the range from minus one to one.
pub fn clamp(x: Number) -> (r: Number)
    requires
        number::fits(Width::Single, x),
    ensures
        r == clamped(x),
        number::fits(Width::Single, r),
{
    proof {
        lemma_scales();
        laws::law_codes_keep_order(Width::Single, 0x3f80_0000, x.code as nat);
    }
    if x.code > 0x7f80_0000 {
        x
    } else if x.code > 0x3f80_0000 {
        Number { negative: x.negative, code: 0x3f80_0000 }
    } else {
        x
    }
}

/// The 16-bit integer that `x` becomes when its fraction is cut off.
pub fn to_i16(x: Number) -> (r: i16)
    requires
        number::fits(Width::Single, x),
    ensures
        r == as_i16(x),
{
    let most: u64 = if x.negative {
        32768
    } else {
        32767
    };
    if x.code > 0x7f80_0000 {
        return 0;
    }
    let n = if x.code == 0x7f80_0000 {
        most
    } else {
        number::truncate_to(Width::Single, x, most)
    };
    if x.negative {
        (0 - n as i32) as i16
    } else {
        n as i16
    }
}

/// A sample as a 16-bit amplitude.
pub fn quantize(s: Sample) -> (r: i16)
    ensures
        r == quantized(s),
{
    proof {
        lemma_scales();
    }
    let x = clamp(s.to_number());
    to_i16(number::multiply(Width::Single, x, Number { negative: false, code: 0x46ff_fe00 }))
}

/// A finite magnitude in `[0, 1]`, scaled: still finite, and between zero and
/// full scale.
pub(crate) proof fn lemma_scaled(x: Number)
    requires
        number::is_finite(Width::Single, x),
        number::magnitude(Width::Single, x) <= pow2(149),
    ensures
        ({
            let p = number::product(Width::Single, x, full_scale());
            &&& p.negative == x.negative
            &&& p.code == rounding::nearest(
                Width::Single,
                number::magnitude(Width::Single, x) * (32767 * pow2(149)),
                pow2(149),
            )
            &&& p.code <= 0x46ff_fe00
            &&& number::whole_part(Width::Single, p) <= 32767
        }),
{
    lemma_scales();
    let n = number::magnitude(Width::Single, x);
    let f = 32767 * pow2(149);
    let one = pow2(149);
    lemma_pow2_pos(149);
    assert(n * f <= f * one) by (nonlinear_arith)
        requires
            n <= one,
            f >= 0,
    ;
    laws::law_rounding_respects_values(Width::Single, n * f, one, 0x46ff_fe00);
    let c = rounding::nearest(Width::Single, n * f, one);
    laws::law_codes_keep_order(Width::Single, 0x46ff_fe00, c);
    let u = rounding::units(Width::Single, c);
    lemma_div_is_ordered(u as int, f as int, one as int);
    lemma_div_by_multiple(32767, one as int);
}

/// Where a number stands in the order of all that are numbers.
pub open spec fn rank(x: Number) -> int {
    if x.negative {
        -(x.code as int)
    } else {
        x.code as int
    }
}

/// Ranks order numbers as their values do.
pub proof fn law_ranks_keep_order(x: Number, y: Number)
    requires
        number::is_finite(Width::Single, x),
        number::is_finite(Width::Single, y),
    ensures
        rank(x) <= rank(y) <==> number::value(Width::Single, x) <= number::value(Width::Single, y),
{
    laws::law_codes_keep_order(Width::Single, x.code as nat, y.code as nat);
    laws::law_codes_keep_order(Width::Single, x.code as nat, 0);
    laws::law_codes_keep_order(Width::Single, 0, y.code as nat);
    lemma_pow2_pos(23);
    assert(rounding::units(Width::Single, 0) == 0);
}

/// An amplitude never uses the one value that has no opposite.
pub proof fn law_quantized_in_range(s: Sample)
    ensures
        -32767 <= quantized(s) <= 32767,
{
    lemma_scales();
    let x = clamped(s.number());
    if !number::is_nan(Width::Single, s.number()) {
        lemma_scaled(x);
    }
}

/// What is no number is silent.
pub proof fn law_nan_is_silent(s: Sample)
    requires
        number::is_nan(Width::Single, s.number()),
    ensures
        quantized(s) == 0,
{
}

/// A sample at or beyond one end of the range has the full amplitude.
pub proof fn law_quantized_clips(s: Sample)
    requires
        !number::is_nan(Width::Single, s.number()),
        s.number().code >= 0x3f80_0000,
    ensures
        quantized(s) == if s.number().negative {
            -32767int
        } else {
            32767int
        },
{
    lemma_scales();
    let x = s.number();
    laws::law_codes_keep_order(Width::Single, 0x3f80_0000, x.code as nat);
    let c = clamped(x);
    assert(c == one(x.negative));
    lemma_scaled(c);
    let one = pow2(149);
    lemma_pow2_pos(149);
    assert((32767 * one) * one == one * (32767 * one)) by (nonlinear_arith);
    laws::law_rounding_respects_values(Width::Single, one * (32767 * one), one, 0x46ff_fe00);
    lemma_div_by_multiple(32767, one as int);
}

/// Turning a sample's sign turns its amplitude's sign.
pub proof fn law_quantized_is_odd(s: Sample, t: Sample)
    requires
        t.number() == number::opposite(s.number()),
    ensures
        quantized(t) == -quantized(s),
{
    lemma_scales();
    if !number::is_nan(Width::Single, s.number()) {
        lemma_scaled(clamped(s.number()));
        lemma_scaled(clamped(t.number()));
    }
}

/// A louder sample does not get a smaller amplitude.
pub proof fn law_quantized_keeps_order(s: Sample, t: Sample)
    requires
        !number::is_nan(Width::Single, s.number()),
        !number::is_nan(Width::Single, t.number()),
        rank(s.number()) <= rank(t.number()),
    ensures
        quantized(s) <= quantized(t),
{
    lemma_scales();
    let x = clamped(s.number());
    let y = clamped(t.number());
    laws::law_codes_keep_order(Width::Single, 0x3f80_0000, s.number().code as nat);
    laws::law_codes_keep_order(Width::Single, 0x3f80_0000, t.number().code as nat);
    lemma_scaled(x);
    lemma_scaled(y);
    assert(rank(x) <= rank(y));
    let one = pow2(149) as int;
    lemma_pow2_pos(149);
    let p = number::product(Width::Single, x, full_scale());
    let q = number::product(Width::Single, y, full_scale());
    let (m, n) = (number::magnitude(Width::Single, x), number::magnitude(Width::Single, y));
    let f = 32767 * one;
    if !x.negative && y.negative {
        // both are zero
        lemma_pow2_pos(23);
        assert(rounding::units(Width::Single, 0) == 0);
        assert(0 * f == 0);
        laws::law_rounding_respects_values(Width::Single, 0, one as nat, 0);
        lemma_div_of0(one);
    }
    laws::law_codes_keep_order(Width::Single, x.code as nat, y.code as nat);
    laws::law_codes_keep_order(Width::Single, p.code as nat, q.code as nat);
    if m <= n {
        assert((m * f) * one <= (n * f) * one) by (nonlinear_arith)
            requires
                m <= n,
                f >= 0,
                one > 0,
        ;
        laws::law_rounding_keeps_order(
            Width::Single,
            (m * f) as nat,
            one as nat,
            (n * f) as nat,
            one as nat,
        );
        lemma_div_is_ordered(
            number::magnitude(Width::Single, p) as int,
            number::magnitude(Width::Single, q) as int,
            one,
        );
    } else {
        assert((n * f) * one <= (m * f) * one) by (nonlinear_arith)
            requires
                n <= m,
                f >= 0,
                one > 0,
        ;
        laws::law_rounding_keeps_order(
            Width::Single,
            (n * f) as nat,
            one as nat,
            (m * f) as nat,
            one as nat,
        );
        lemma_div_is_ordered(
            number::magnitude(Width::Single, q) as int,
            number::magnitude(Width::Single, p) as int,
            one,
        );
    }
}

/// An amplitude lies less than one step from the sample, clamped and scaled to
/// full scale.
pub proof fn law_quantized_is_close(s: Sample)
    requires
        !number::is_nan(Width::Single, s.number()),
    ensures
        laws::distance(
            quantized(s) * pow2(149),
            32767 * number::value(Width::Single, clamped(s.number())),
        ) < pow2(149),
{
    lemma_scales();
    lemma2_to64();
    let x = clamped(s.number());
    let one = pow2(149);
    lemma_pow2_pos(149);
    lemma_scaled(x);
    let m = number::magnitude(Width::Single, x);
    let f = 32767 * one;
    let p = number::product(Width::Single, x, full_scale());
    let exact = 32767 * m;
    let k = exact as int / one as int;
    lemma_fundamental_div_mod(exact as int, one as int);
    assert(exact == k * one + exact as int % one as int) by (nonlinear_arith)
        requires
            exact == one * k + exact as int % one as int,
    ;
    assert(0 <= k <= 32767) by (nonlinear_arith)
        requires
            exact == k * one + exact as int % one as int,
            0 <= exact as int % one as int,
            (exact as int % one as int) < one,
            0 <= exact <= 32767 * one,
            one > 0,
    ;
    assert(m * f == exact * one) by (nonlinear_arith)
        requires
            f == 32767 * one,
            exact == 32767 * m,
    ;
    // the scaled sample is rounded to between `k` and `k + 1`
    laws::law_rounding_keeps_multiples(Width::Single, k as nat, 149);
    laws::law_rounding_keeps_multiples(Width::Single, (k + 1) as nat, 149);
    let low = rounding::nearest(Width::Single, k as nat * one, 1);
    let high = rounding::nearest(Width::Single, (k + 1) as nat * one, 1);
    assert(k * one + one == (k + 1) * one) by (nonlinear_arith);
    assert((k * one) * one <= exact * one <= ((k + 1) * one) * one) by (nonlinear_arith)
        requires
            k * one <= exact <= (k + 1) * one,
    ;
    laws::law_rounding_respects_values(Width::Single, m * f, one, low);
    laws::law_rounding_respects_values(Width::Single, m * f, one, high);
    laws::law_codes_keep_order(Width::Single, p.code as nat, low);
    laws::law_codes_keep_order(Width::Single, high, p.code as nat);
    let u = rounding::units(Width::Single, p.code as nat);
    assert(k * one <= u <= (k + 1) * one);
    if exact == k * one {
        laws::law_rounding_respects_values(Width::Single, m * f, one, low);
        assert(u == k * one);
    }
    let n = number::whole_part(Width::Single, p) as int;
    if u == (k + 1) * one {
        lemma_div_by_multiple(k + 1, one as int);
        assert(n == k + 1);
    } else {
        assert(one * k == k * one) by (nonlinear_arith);
        lemma_fundamental_div_mod_converse(u as int, one as int, k, u - k * one);
        assert(n == k);
    }
    let q = quantized(s);
    assert(q == n || q == -n);
    assert((-n) * one == -(n * one)) by (nonlinear_arith);
    let v = number::value(Width::Single, x);
    assert(32767 * (-(m as int)) == -(32767 * m));
}

/// The bits of a sample are the code of its number below a sign bit, and the
/// number gives the bits back.
pub proof fn law_bits_are_sign_and_code(s: Sample)
    ensures
        s.bits == s.number().code + if s.number().negative {
            0x8000_0000int
        } else {
            0int
        },
        s.number().code < 0x8000_0000,
        Sample::of(s.number()) == s,
{
}

/// The amplitude of a sample between minus one and one is the sample times
/// 32767, its fraction cut off and its sign kept, up to the rounding of the
/// product.
pub proof fn law_quantized_cuts_off(s: Sample)
    requires
        s.number().code <= 0x3f80_0000,
    ensures
        ({
            let m = number::magnitude(Width::Single, s.number());
            let q = if s.number().negative {
                -quantized(s)
            } else {
                quantized(s)
            };
            &&& q >= 0
            &&& (q * pow2(149)) * 0x100_0000 <= (32767 * m) * 0x100_0001 + 0x80_0000
            &&& (32767 * m) * 0xff_ffff <= ((q + 1) * pow2(149)) * 0x100_0000 + 0x80_0000
        }),
{
    lemma_scales();
    lemma2_to64();
    let x = s.number();
    laws::law_codes_keep_order(Width::Single, 0x3f80_0000, x.code as nat);
    assert(clamped(x) == x);
    lemma_scaled(x);
    let one = pow2(149) as int;
    lemma_pow2_pos(149);
    let m = number::magnitude(Width::Single, x) as int;
    let f = 32767 * one;
    let exact = 32767 * m;
    assert(m * f == exact * one) by (nonlinear_arith)
        requires
            f == 32767 * one,
            exact == 32767 * m,
    ;
    let p = number::product(Width::Single, x, full_scale());
    laws::law_rounding_error(Width::Single, (m * f) as nat, one as nat);
    let u = number::magnitude(Width::Single, p) as int;
    let off = laws::distance(exact, u);
    assert(laws::distance(m * f, u * one) == off * one) by (nonlinear_arith)
        requires
            m * f == exact * one,
            one > 0,
            off == if exact < u {
                u - exact
            } else {
                exact - u
            },
            laws::distance(m * f, u * one) == if m * f < u * one {
                u * one - m * f
            } else {
                m * f - u * one
            },
    ;
    assert(off * 0x100_0000 <= exact + 0x80_0000) by (nonlinear_arith)
        requires
            (off * one) * 0x100_0000 <= exact * one + 0x80_0000 * one,
            one > 0,
    ;
    let n = number::whole_part(Width::Single, p) as int;
    lemma_fundamental_div_mod(u, one);
    assert(n * one <= u < (n + 1) * one) by (nonlinear_arith)
        requires
            u == one * n + u % one,
            0 <= u % one < one,
    ;
}

} // verus!
