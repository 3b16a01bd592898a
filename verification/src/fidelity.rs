//! Laws of the change of speed and of rate, in terms of what goes in and what
//! comes out: how long the output is, and that each sample of it lies on the
//! line through the input, at the place that speed or rates give.

use crate::interpolate;
use crate::laws;
use crate::number;
use crate::number::Number;
use crate::rate;
use crate::reads;
use crate::rounding;
use crate::rounding::Width;
use crate::sample;
use crate::sample::Sample;
use crate::speed;
use crate::stretch;
use vstd::arithmetic::div_mod::*;
use vstd::arithmetic::power2::*;
use vstd::prelude::*;

verus! {

/// One, and the singles next to it, in units.
proof fn lemma_about_one()
    ensures
        rounding::units(Width::Single, 0x3f80_0000) == pow2(149),
        rounding::units(Width::Single, 0x3f7f_fffe) == pow2(149) - pow2(126),
        rounding::units(Width::Single, 0x3400_0000) == pow2(126),
        rounding::units(Width::Single, 0) == 0,
        0 < pow2(126) < pow2(149),
{
    lemma2_to64();
    lemma_pow2_adds(23, 126);
    lemma_pow2_adds(24, 125);
    lemma_pow2_adds(23, 103);
    lemma_pow2_unfold(126);
    lemma_pow2_pos(126);
    lemma_pow2_pos(23);
    assert(0x3f80_0000int / 0x80_0000 == 127 && 0x3f80_0000int % 0x80_0000 == 0);
    assert(0x3f7f_fffeint / 0x80_0000 == 126 && 0x3f7f_fffeint % 0x80_0000 == 0x7f_fffe);
    assert(0x3400_0000int / 0x80_0000 == 104 && 0x3400_0000int % 0x80_0000 == 0);
    let g = pow2(125);
    assert(0xff_fffe * g == 0x100_0000 * g - 2 * g);
    assert(pow2(126) < 0x80_0000 * pow2(126)) by (nonlinear_arith)
        requires
            pow2(126) > 0,
    ;
}

/// Just two speeds count as one: one itself, and the next number below it.
pub proof fn law_speeds_that_count_as_one(speed: Number)
    requires
        number::fits(Width::Single, speed),
    ensures
        stretch::near_one(speed) <==> !speed.negative && (speed.code == 0x3f7f_ffff || speed.code
            == 0x3f80_0000),
{
    lemma_about_one();
    if number::is_finite(Width::Single, speed) {
        let u = number::magnitude(Width::Single, speed);
        if !speed.negative && speed.code > 0x3f80_0000 {
            speed::lemma_fast(speed);
        } else if !speed.negative && speed.code == 0x3f7f_ffff {
            speed::lemma_just_below_one(speed);
        } else if !speed.negative && speed.code == 0x3f80_0000 {
            assert(number::difference(Width::Single, speed, sample::one(false)) == number::zero(
                false,
            ));
        } else {
            // at least `2^-23` away
            laws::law_codes_keep_order(Width::Single, speed.code as nat, 0x3f7f_fffe);
            let n: nat = if speed.negative {
                u + pow2(149)
            } else {
                (pow2(149) - u) as nat
            };
            assert(n >= pow2(126));
            laws::law_rounding_respects_values(Width::Single, n, 1, 0x3400_0000);
            let d = rounding::nearest(Width::Single, n, 1);
            laws::law_codes_keep_order(Width::Single, d, 0x3400_0000);
        }
    }
}

/// Audio stays as it is at a speed of one, and at what is no speed: what is
/// negative, infinite or no number.
pub proof fn law_no_speed_keeps_samples(samples: Seq<Sample>, speed: Number)
    requires
        number::fits(Width::Single, speed),
        samples.len() <= usize::MAX,
        speed.negative || speed.code >= 0x7f80_0000 || speed.code == 0x3f7f_ffff || speed.code
            == 0x3f80_0000,
    ensures
        stretch::sped(samples, speed) == samples,
{
    law_speeds_that_count_as_one(speed);
    let n = samples.len();
    if n > 0 && !stretch::near_one(speed) {
        speed::lemma_index_number(n);
        lemma_pow2_pos(1074);
        lemma_pow2_pos(52);
        assert(rounding::units(Width::Double, 0) == 0);
        lemma_div_of0(pow2(1074) as int);
        if number::is_finite(Width::Single, speed) {
            speed::lemma_widened(speed);
        }
        assert(stretch::sped_length(n, speed) == 0);
    }
}

/// The double units of a speed.
proof fn lemma_wide(speed: Number)
    requires
        0 < speed.code < 0x7f80_0000,
        !speed.negative,
    ensures
        ({
            let wide = number::widened(speed);
            let s = number::magnitude(Width::Single, speed);
            &&& !wide.negative
            &&& 0 < wide.code < rounding::infinity(Width::Double)
            &&& number::magnitude(Width::Double, wide) == s * pow2(925)
            &&& 0 < s < pow2(277)
            &&& s * pow2(925) > 0
            &&& pow2(1074) == pow2(149) * pow2(925)
            &&& pow2(925) > 0
            &&& pow2(149) > 0
            &&& pow2(1074) > 0
        }),
{
    lemma2_to64();
    speed::lemma_widened(speed);
    lemma_pow2_pos(23);
    lemma_pow2_pos(52);
    lemma_pow2_pos(149);
    lemma_pow2_pos(925);
    lemma_pow2_pos(1074);
    lemma_pow2_adds(149, 925);
    assert(rounding::units(Width::Single, 0) == 0);
    assert(rounding::units(Width::Double, 0) == 0);
    laws::law_codes_keep_order(Width::Single, 0, speed.code as nat);
    laws::law_codes_keep_order(Width::Single, speed.code as nat, 0x7f80_0000);
    lemma_pow2_adds(23, 254);
    assert(0x7f80_0000int / 0x80_0000 == 255 && 0x7f80_0000int % 0x80_0000 == 0);
    let s = number::magnitude(Width::Single, speed);
    assert(s * pow2(925) > 0) by (nonlinear_arith)
        requires
            s > 0,
            pow2(925) > 0,
    ;
    laws::law_codes_keep_order(Width::Double, 0, number::widened(speed).code as nat);
}

/// How many positions a speed asks for, between bounds by the exact quotient.
proof fn lemma_sped_count(n: nat, speed: Number, most: nat)
    requires
        0 < n < 0x20_0000_0000_0000,
        0 < speed.code < 0x7f80_0000,
        !speed.negative,
        most <= 0x4_0000_0000_0000,
        most < usize::MAX,
        n * pow2(149) <= number::magnitude(Width::Single, speed) * most,
    ensures
        ({
            let s = number::magnitude(Width::Single, speed);
            let count = stretch::sped_length(n, speed);
            &&& count <= most
            &&& (count * s) * 0xf_ffff_ffff_ffff <= (n * pow2(149)) * 0x10_0000_0000_0000
            &&& (n * pow2(149)) * 0xf_ffff_ffff_ffff <= ((count + 1) * s) * 0x10_0000_0000_0000
            &&& s <= n * pow2(149) ==> count > 0
        }),
{
    lemma_wide(speed);
    lemma2_to64();
    lemma2_to64_rest();
    reads::lemma_exact_index(n);
    let s = number::magnitude(Width::Single, speed);
    let (d, w, one) = (pow2(1074), pow2(925), pow2(149));
    let t = s * w;
    let x = stretch::index_number(n);
    let wide = number::widened(speed);
    let q = number::quotient(Width::Double, x, wide);
    let a = (n * d) * d;
    let m = number::magnitude(Width::Double, q);
    let count = stretch::sped_length(n, speed);
    assert(n * d == (n * one) * w) by (nonlinear_arith)
        requires
            d == one * w,
    ;
    assert(n * d <= t * most) by (nonlinear_arith)
        requires
            n * one <= s * most,
            n * d == (n * one) * w,
            t == s * w,
    ;
    // at most `most`
    assert(most > 0) by (nonlinear_arith)
        requires
            n * one <= s * most,
            n > 0,
            one > 0,
            most >= 0,
    ;
    reads::lemma_exact_index(most);
    let c = stretch::index_number(most).code as nat;
    assert(a <= (most * d) * t) by (nonlinear_arith)
        requires
            n * d <= t * most,
            a == (n * d) * d,
    ;
    laws::law_rounding_respects_values(Width::Double, a, t, c);
    laws::law_codes_keep_order(Width::Double, c, q.code as nat);
    lemma_div_is_ordered(m as int, (most * d) as int, d as int);
    lemma_div_by_multiple(most as int, d as int);
    assert(count == m / d && count <= most);
    lemma_fundamental_div_mod(m as int, d as int);
    // the quotient is close to the exact one
    laws::law_rounding_error(Width::Double, a, t);
    let off = laws::distance(a as int, (m * t) as int);
    assert(off * 0x20_0000_0000_0000 <= a + 0x10_0000_0000_0000 * t);
    assert(t < pow2(277) * w) by (nonlinear_arith)
        requires
            t == s * w,
            s < pow2(277),
            w > 0,
    ;
    lemma_small_speed(n, t);
    let e = count * d;
    assert(e <= m < e + d) by (nonlinear_arith)
        requires
            m == d * count + m as int % d as int,
            0 <= m as int % d as int,
            (m as int % d as int) < d,
            e == count * d,
    ;
    assert(e * t <= m * t <= (e + d) * t) by (nonlinear_arith)
        requires
            e <= m < e + d,
            t > 0,
    ;
    // a * (2^52 - 1) <= (count + 1) * d * t * 2^52
    assert(a * 0xf_ffff_ffff_ffff <= ((e + d) * t) * 0x10_0000_0000_0000);
    assert(((e + d) * t) * 0x10_0000_0000_0000 == (((count + 1) * s) * 0x10_0000_0000_0000) * (w
        * d)) by (nonlinear_arith)
        requires
            e == count * d,
            t == s * w,
    ;
    assert(a * 0xf_ffff_ffff_ffff == ((n * one) * 0xf_ffff_ffff_ffff) * (w * d)) by (nonlinear_arith)
        requires
            a == (n * d) * d,
            n * d == (n * one) * w,
    ;
    let scale = w * d;
    assert(scale > 0) by (nonlinear_arith)
        requires
            scale == w * d,
            w > 0,
            d > 0,
    ;
    lemma_cancel(
        ((n * one) * 0xf_ffff_ffff_ffff) as int,
        (((count + 1) * s) * 0x10_0000_0000_0000) as int,
        scale as int,
    );
    if count > 0 {
        reads::lemma_sped_within(n, speed);
        assert((count * t) * 0xf_ffff_ffff_ffff == ((count * s) * 0xf_ffff_ffff_ffff) * w)
            by (nonlinear_arith)
            requires
                t == s * w,
        ;
        assert((n * d) * 0x10_0000_0000_0000 == ((n * one) * 0x10_0000_0000_0000) * w)
            by (nonlinear_arith)
            requires
                n * d == (n * one) * w,
        ;
        lemma_cancel(
            ((count * s) * 0xf_ffff_ffff_ffff) as int,
            ((n * one) * 0x10_0000_0000_0000) as int,
            w as int,
        );
    } else {
        assert((0 * s) * 0xf_ffff_ffff_ffff == 0);
    }
    if s <= n * one {
        reads::lemma_exact_index(1);
        let c1 = stretch::index_number(1).code as nat;
        assert((1 * d) * t <= a) by (nonlinear_arith)
            requires
                s <= n * one,
                n * d == (n * one) * w,
                t == s * w,
                a == (n * d) * d,
                w > 0,
                d > 0,
        ;
        laws::law_rounding_respects_values(Width::Double, a, t, c1);
        laws::law_codes_keep_order(Width::Double, q.code as nat, c1);
        speed::lemma_whole_above(Width::Double, q, 1);
    }
}

/// What holds of multiples holds without the factor.
proof fn lemma_cancel(a: int, b: int, k: int)
    requires
        k > 0,
        a * k <= b * k,
    ensures
        a <= b,
{
    assert(a <= b) by (nonlinear_arith)
        requires
            k > 0,
            a * k <= b * k,
    ;
}

/// Half a unit of the quotient is little.
proof fn lemma_small_speed(n: nat, t: nat)
    requires
        n > 0,
        t < pow2(277) * pow2(925),
    ensures
        0x10_0000_0000_0000 * t <= (n * pow2(1074)) * pow2(1074),
{
    lemma2_to64();
    lemma2_to64_rest();
    lemma_pow2_adds(277, 925);
    lemma_pow2_adds(52, 1202);
    lemma_pow2_adds(1074, 1074);
    lemma_pow2_strictly_increases(1254, 2148);
    let d = pow2(1074);
    assert(d * d <= (n * d) * d) by (nonlinear_arith)
        requires
            n >= 1,
    ;
    assert(0x10_0000_0000_0000 * t <= 0x10_0000_0000_0000 * pow2(1202));
}

/// How long audio is that is played at a speed: its length divided by the
/// speed, up to rounding. If less than one sample would be left, the audio stays
/// as it is. `most` is any length that the output does not exceed.
pub proof fn law_sped_length(samples: Seq<Sample>, speed: Number, most: nat)
    requires
        0 < samples.len() < 0x20_0000_0000_0000,
        0 < speed.code < 0x7f80_0000,
        !speed.negative,
        speed.code != 0x3f7f_ffff && speed.code != 0x3f80_0000,
        most <= 0x4_0000_0000_0000,
        most < usize::MAX,
        samples.len() * pow2(149) <= number::magnitude(Width::Single, speed) * most,
    ensures
        ({
            let n = samples.len() * pow2(149);
            let s = number::magnitude(Width::Single, speed);
            let r = stretch::sped(samples, speed);
            &&& s <= n ==> {
                &&& 0 < r.len() <= most
                &&& (r.len() * s) * 0xf_ffff_ffff_ffff <= n * 0x10_0000_0000_0000
                &&& n * 0xf_ffff_ffff_ffff <= ((r.len() + 1) * s) * 0x10_0000_0000_0000
            }
            &&& n * 0x10_0000_0000_0000 < s * 0xf_ffff_ffff_ffff ==> r == samples
        }),
{
    law_speeds_that_count_as_one(speed);
    let n = samples.len();
    lemma_sped_count(n, speed, most);
    let count = stretch::sped_length(n, speed);
    if count > 0 {
        reads::law_no_sped_position_is_skipped(samples, speed);
        let s = number::magnitude(Width::Single, speed);
        assert(s <= count * s) by (nonlinear_arith)
            requires
                count >= 1,
        ;
    }
}

/// The position of the `i`th read at a speed is close to the exact one.
proof fn lemma_sped_position_close(speed: Number, i: nat)
    requires
        0 < speed.code < 0x7f80_0000,
        !speed.negative,
        i < 0x20_0000_0000_0000,
        number::is_finite(Width::Double, stretch::sped_position(speed, i)),
    ensures
        ({
            let p = stretch::sped_position(speed, i);
            let num = i * number::magnitude(Width::Single, speed);
            &&& !p.negative
            &&& interpolate::size(
                number::magnitude(Width::Double, p) * pow2(149) - num * pow2(1074),
            ) * 0x10_0000_0000_0000 <= num * pow2(1074)
        }),
{
    lemma_wide(speed);
    lemma2_to64();
    lemma2_to64_rest();
    lemma_pow2_pos(52);
    assert(rounding::units(Width::Double, 0) == 0);
    let s = number::magnitude(Width::Single, speed);
    let (d, w, one) = (pow2(1074), pow2(925), pow2(149));
    let t = s * w;
    laws::law_rounding_keeps_multiples(Width::Double, i, 1074);
    let a = (i * d) * t;
    let p = stretch::sped_position(speed, i);
    let m = number::magnitude(Width::Double, p);
    laws::law_rounding_respects_values(Width::Double, a, d, 0);
    laws::law_rounding_error(Width::Double, a, d);
    let z = i * t;
    assert(a == z * d) by (nonlinear_arith)
        requires
            a == (i * d) * t,
            z == i * t,
    ;
    let off = laws::distance(z as int, m as int);
    assert(laws::distance(a as int, (m * d) as int) == off * d) by (nonlinear_arith)
        requires
            a == z * d,
            d > 0,
            off == if z < m {
                m - z
            } else {
                z - m
            },
            laws::distance(a as int, (m * d) as int) == if a < m * d {
                m * d - a
            } else {
                a - m * d
            },
    ;
    assert((off * d) * 0x20_0000_0000_0000 <= z * d + 0x10_0000_0000_0000 * d);
    assert((off * 0x20_0000_0000_0000) * d == (off * d) * 0x20_0000_0000_0000 && (z
        + 0x10_0000_0000_0000) * d == z * d + 0x10_0000_0000_0000 * d) by (nonlinear_arith);
    lemma_cancel(off * 0x20_0000_0000_0000, (z + 0x10_0000_0000_0000) as int, d as int);
    if i == 0 {
        assert(0 * t == 0 && (0 * d) * t == 0);
        laws::law_rounding_respects_values(Width::Double, 0, d, 0);
        assert(m == 0);
        assert(off == 0);
        assert(0 * s == 0);
    } else {
        lemma_pow2_strictly_increases(52, 925);
        assert(z >= w) by (nonlinear_arith)
            requires
                z == i * t,
                t == s * w,
                i >= 1,
                s >= 1,
        ;
        assert(off * 0x10_0000_0000_0000 <= z);
    }
    // the same over one
    let num = i * s;
    assert(num * d == z * one) by (nonlinear_arith)
        requires
            num == i * s,
            z == i * t,
            t == s * w,
            d == one * w,
    ;
    assert(interpolate::size(m * one - z * one) == off * one) by (nonlinear_arith)
        requires
            one > 0,
            off == if z < m {
                m - z
            } else {
                z - m
            },
            interpolate::size(m * one - z * one) == if m * one - z * one < 0 {
                -(m * one - z * one)
            } else {
                m * one - z * one
            },
    ;
    assert((off * one) * 0x10_0000_0000_0000 <= z * one) by (nonlinear_arith)
        requires
            off * 0x10_0000_0000_0000 <= z,
            one > 0,
    ;
}

/// Audio played at a speed follows the line through the samples: the `i`th
/// sample of the output is what the line has at `i` times the speed, whatever
/// the speed, up to the rounding of the arithmetic.
pub proof fn law_sped_follows_the_line(
    samples: Seq<Sample>,
    speed: Number,
    bound: nat,
    most: nat,
    i: nat,
)
    requires
        0 < samples.len() < 0x20_0000_0000_0000,
        samples.len() <= usize::MAX,
        0 < speed.code < 0x7f80_0000,
        !speed.negative,
        speed.code != 0x3f7f_ffff && speed.code != 0x3f80_0000,
        most <= 0x4_0000_0000_0000,
        most < usize::MAX,
        samples.len() * pow2(149) <= number::magnitude(Width::Single, speed) * most,
        number::magnitude(Width::Single, speed) <= samples.len() * pow2(149),
        interpolate::bounded(samples, bound),
        bound <= pow2(275),
        i < stretch::sped(samples, speed).len(),
    ensures
        ({
            let r = stretch::sped(samples, speed)[i as int].number();
            &&& number::is_finite(Width::Single, r)
            &&& interpolate::on_line(
                number::value(Width::Single, r),
                samples,
                (i * number::magnitude(Width::Single, speed)) as int,
                pow2(149) as int,
                bound,
            )
        }),
{
    let n = samples.len();
    law_speeds_that_count_as_one(speed);
    lemma_sped_count(n, speed, most);
    lemma_wide(speed);
    let count = stretch::sped_length(n, speed);
    reads::law_no_sped_position_is_skipped(samples, speed);
    reads::lemma_sped_within(n, speed);
    let position = |j: nat| stretch::sped_position(speed, j);
    assert forall|j: nat| j < count implies stretch::read_at(
        samples,
        #[trigger] position(j),
    ).len() == 1 by {
        assert(stretch::as_index(stretch::sped_position(speed, j)) < n);
    }
    reads::lemma_reads_in_order(samples, position, count, i);
    let p = stretch::sped_position(speed, i);
    assert(stretch::as_index(p) < n);
    lemma_sped_finite(speed, i, n);
    lemma_sped_position_close(speed, i);
    let num = i * number::magnitude(Width::Single, speed);
    assert(num * pow2(1074) >= 0);
    interpolate::lemma_on_line(samples, p, num as int, pow2(149) as int, bound);
}

/// A position within the samples is finite.
proof fn lemma_sped_finite(speed: Number, i: nat, n: nat)
    requires
        0 < speed.code < 0x7f80_0000,
        !speed.negative,
        i < 0x20_0000_0000_0000,
        n <= usize::MAX,
        stretch::as_index(stretch::sped_position(speed, i)) < n,
    ensures
        number::is_finite(Width::Double, stretch::sped_position(speed, i)),
{
    lemma_wide(speed);
    lemma2_to64();
    lemma2_to64_rest();
    laws::law_rounding_keeps_multiples(Width::Double, i, 1074);
    let x = stretch::index_number(i);
    let m = number::magnitude(Width::Double, x) * number::magnitude(
        Width::Double,
        number::widened(speed),
    );
    laws::law_rounding_respects_values(Width::Double, m, pow2(1074), 0);
}

/// The size of a sum of two errors.
proof fn lemma_two_errors(x: int, p: int, y: int, q: int)
    requires
        p >= 0,
        q >= 0,
    ensures
        interpolate::size(p * x + q * y) <= p * interpolate::size(x) + q * interpolate::size(y),
{
    let (a, b) = (interpolate::size(x), interpolate::size(y));
    assert(-(p * a) <= p * x <= p * a) by (nonlinear_arith)
        requires
            -a <= x <= a,
            p >= 0,
    ;
    assert(-(q * b) <= q * y <= q * b) by (nonlinear_arith)
        requires
            -b <= y <= b,
            q >= 0,
    ;
}

/// The ratio of two rates is close to the exact one.
proof fn lemma_ratio_close(from: u32, to: u32)
    requires
        0 < from,
        0 < to,
        from != to,
    ensures
        ({
            let ratio = stretch::rate_ratio(from, to);
            let r = number::magnitude(Width::Double, ratio);
            let d = pow2(1074);
            &&& !ratio.negative
            &&& 0 < ratio.code < rounding::infinity(Width::Double)
            &&& interpolate::size(r * from - to * d) * 0x10_0000_0000_0000 <= to * d
            &&& 0x10_0000_0000_0000 <= r <= 0x2_0000_0000 * d
            &&& 0x20_0000_0000_0000_0000_0000 <= d
        }),
{
    lemma2_to64();
    lemma2_to64_rest();
    lemma_pow2_pos(1074);
    lemma_pow2_pos(52);
    lemma_pow2_adds(52, 33);
    lemma_pow2_strictly_increases(90, 1074);
    lemma_pow2_adds(64, 26);
    rate::lemma_rate(from);
    rate::lemma_rate(to);
    rate::lemma_ratio(from, to);
    let d = pow2(1074) as int;
    assert(0x20_0000_0000_0000_0000_0000 <= d);
    let ratio = stretch::rate_ratio(from, to);
    let r = number::magnitude(Width::Double, ratio) as int;
    let a = (to * d) * d;
    let b = from * d;
    assert(b > 0 && to * d >= d) by (nonlinear_arith)
        requires
            from >= 1,
            to >= 1,
            d > 0,
            b == from * d,
    ;
    laws::law_rounding_respects_values(Width::Double, a as nat, b as nat, 0);
    laws::law_rounding_error(Width::Double, a as nat, b as nat);
    let e = r * from - to * d;
    assert(r * b - a == e * d) by (nonlinear_arith)
        requires
            e == r * from - to * d,
            a == (to * d) * d,
            b == from * d,
    ;
    let off = interpolate::size(e);
    assert(laws::distance(a, r * b) == off * d) by {
        interpolate::lemma_size_product(e, d, off, d);
    }
    assert((off * 0x20_0000_0000_0000) * d <= (to * d + 0x10_0000_0000_0000 * from) * d) by {
        assert((off * 0x20_0000_0000_0000) * d == (off * d) * 0x20_0000_0000_0000)
            by (nonlinear_arith);
        assert((to * d + 0x10_0000_0000_0000 * from) * d == a + 0x10_0000_0000_0000 * b)
            by (nonlinear_arith)
            requires
                a == (to * d) * d,
                b == from * d,
        ;
    }
    lemma_cancel(off * 0x20_0000_0000_0000, to * d + 0x10_0000_0000_0000 * from, d);
    assert(off * 0x10_0000_0000_0000 <= to * d);
    assert(to * d <= 0xffff_ffff * d) by (nonlinear_arith)
        requires
            to <= 0xffff_ffff,
            d > 0,
    ;
    assert(r * from >= r) by (nonlinear_arith)
        requires
            from >= 1,
            r >= 0,
    ;
    assert(r <= 0x2_0000_0000 * d);
    assert(r * 0x1_0000_0000 >= r * from) by (nonlinear_arith)
        requires
            from <= 0xffff_ffff,
            r >= 0,
    ;
    assert(rounding::units(Width::Double, 0) == 0);
    laws::law_codes_keep_order(Width::Double, 0, ratio.code as nat);
}

/// The position of the `i`th read of a change of rate is close to the exact one.
proof fn lemma_resampled_position_close(from: u32, to: u32, i: nat)
    requires
        0 < from,
        0 < to,
        from != to,
        i < 0x20_0000_0000_0000,
        number::is_finite(Width::Double, stretch::resampled_position(from, to, i)),
    ensures
        ({
            let p = stretch::resampled_position(from, to, i);
            &&& !p.negative
            &&& interpolate::size(
                number::magnitude(Width::Double, p) * to - (i * from) * pow2(1074),
            ) * 0x4_0000_0000_0000 <= (i * from) * pow2(1074)
        }),
{
    lemma_ratio_close(from, to);
    lemma2_to64();
    lemma2_to64_rest();
    lemma_pow2_pos(52);
    lemma_pow2_pos(1074);
    assert(rounding::units(Width::Double, 0) == 0);
    let d = pow2(1074) as int;
    let ratio = stretch::rate_ratio(from, to);
    let r = number::magnitude(Width::Double, ratio) as int;
    laws::law_rounding_keeps_multiples(Width::Double, i, 1074);
    let a = (i * d) * d;
    let p = stretch::resampled_position(from, to, i);
    let m = number::magnitude(Width::Double, p) as int;
    laws::law_rounding_respects_values(Width::Double, a as nat, r as nat, 0);
    let z = (i * from) * d;
    if i == 0 {
        assert((0 * d) * d == 0 && (0 * from) * d == 0);
        assert(m == 0);
        assert(0 * to == 0);
    } else {
        laws::law_rounding_error(Width::Double, a as nat, r as nat);
        let e2 = m * r - a;
        assert(a >= d * d) by (nonlinear_arith)
            requires
                a == (i * d) * d,
                i >= 1,
                d > 0,
        ;
        assert(0x10_0000_0000_0000 * r <= d * d) by (nonlinear_arith)
            requires
                r <= 0x2_0000_0000 * d,
                0x20_0000_0000_0000_0000_0000 <= d,
        ;
        assert(interpolate::size(e2) * 0x10_0000_0000_0000 <= a);
        let e1 = r * from - to * d;
        let y = m * to;
        // both errors together
        assert((y - z) * d == from * e2 + m * (-e1)) by {
            assert(m * e1 == (m * r) * from - y * d) by (nonlinear_arith)
                requires
                    e1 == r * from - to * d,
                    y == m * to,
            ;
            assert(from * e2 == (m * r) * from - z * d) by (nonlinear_arith)
                requires
                    e2 == m * r - a,
                    a == (i * d) * d,
                    z == (i * from) * d,
            ;
            assert((y - z) * d == y * d - z * d) by (nonlinear_arith);
            assert(m * (-e1) == -(m * e1)) by (nonlinear_arith);
        }
        lemma_two_errors(e2, from as int, -e1, m);
        assert((from * interpolate::size(e2)) * 0x10_0000_0000_0000 <= z * d) by (nonlinear_arith)
            requires
                interpolate::size(e2) * 0x10_0000_0000_0000 <= a,
                a == (i * d) * d,
                z == (i * from) * d,
                from > 0,
        ;
        assert((m * interpolate::size(-e1)) * 0x10_0000_0000_0000 <= y * d) by (nonlinear_arith)
            requires
                interpolate::size(-e1) * 0x10_0000_0000_0000 <= to * d,
                y == m * to,
                m >= 0,
        ;
        let off = interpolate::size(y - z);
        interpolate::lemma_size_product(y - z, d, off, d);
        assert((z + y) * d == z * d + y * d) by (nonlinear_arith);
        assert((off * 0x10_0000_0000_0000) * d == (off * d) * 0x10_0000_0000_0000)
            by (nonlinear_arith);
        lemma_cancel(off * 0x10_0000_0000_0000, z + y, d);
        assert(off * 0x4_0000_0000_0000 <= z);
    }
}

/// How many positions a change of rate asks for, between bounds by the exact
/// number.
proof fn lemma_resampled_count(n: nat, from: u32, to: u32, most: nat)
    requires
        0 < n < 0x20_0000_0000_0000,
        0 < from,
        0 < to,
        from != to,
        most <= 0x4_0000_0000_0000,
        most < usize::MAX,
        n * to <= from * most,
    ensures
        ({
            let count = stretch::resampled_length(n, from, to);
            &&& count <= most
            &&& (count * from) * 0x4_0000_0000_0000 <= (n * to) * 0x4_0000_0000_0001
            &&& (n * to) * 0x3_ffff_ffff_ffff <= ((count + 1) * from) * 0x4_0000_0000_0000
        }),
{
    lemma_ratio_close(from, to);
    lemma2_to64();
    lemma2_to64_rest();
    lemma_pow2_pos(52);
    lemma_pow2_pos(1074);
    assert(rounding::units(Width::Double, 0) == 0);
    reads::lemma_exact_index(n);
    let d = pow2(1074) as int;
    let ratio = stretch::rate_ratio(from, to);
    let r = number::magnitude(Width::Double, ratio) as int;
    let x = stretch::index_number(n);
    let q = number::product(Width::Double, x, ratio);
    let m = number::magnitude(Width::Double, q) as int;
    let a = (n * d) * r;
    let e1 = r * from - to * d;
    let nr = n * r;
    let z = (n * to) * d;
    assert(a == nr * d) by (nonlinear_arith)
        requires
            a == (n * d) * r,
            nr == n * r,
    ;
    assert(nr * from == z + n * e1) by (nonlinear_arith)
        requires
            nr == n * r,
            e1 == r * from - to * d,
            z == (n * to) * d,
    ;
    lemma_two_errors(e1, n as int, 0, 0);
    assert((n * interpolate::size(e1)) * 0x10_0000_0000_0000 <= z) by (nonlinear_arith)
        requires
            interpolate::size(e1) * 0x10_0000_0000_0000 <= to * d,
            z == (n * to) * d,
    ;
    assert(interpolate::size(n * e1) * 0x10_0000_0000_0000 <= z);
    // less than `most + 1`
    assert(z <= (from * most) * d) by (nonlinear_arith)
        requires
            n * to <= from * most,
            z == (n * to) * d,
            d > 0,
    ;
    reads::lemma_exact_index(most + 1);
    let below = rounding::units(
        Width::Double,
        (stretch::index_number(most + 1).code - 1) as nat,
    ) as int;
    assert(nr <= below) by {
        let f = from as int;
        let t = most * d;
        assert((from * most) * d == f * t) by (nonlinear_arith)
            requires
                t == most * d,
                f == from,
        ;
        assert((nr * 0x10_0000_0000_0000) * f <= (t * 0x10_0000_0000_0001) * f) by {
            assert((nr * 0x10_0000_0000_0000) * f == (nr * from) * 0x10_0000_0000_0000)
                by (nonlinear_arith)
                requires
                    f == from,
            ;
            assert((t * 0x10_0000_0000_0001) * f == (f * t) * 0x10_0000_0000_0001)
                by (nonlinear_arith);
        }
        lemma_cancel(nr * 0x10_0000_0000_0000, t * 0x10_0000_0000_0001, f);
        assert((most + 1) * d == t + d) by (nonlinear_arith)
            requires
                t == most * d,
        ;
        assert(t <= 0x4_0000_0000_0000 * d) by (nonlinear_arith)
            requires
                t == most * d,
                most <= 0x4_0000_0000_0000,
                d > 0,
        ;
    }
    assert(a <= below * d) by (nonlinear_arith)
        requires
            a == nr * d,
            nr <= below,
            d > 0,
    ;
    reads::lemma_rounds_below(a as nat, d as nat, most + 1);
    laws::law_rounding_respects_values(Width::Double, a as nat, d as nat, 0);
    let count = stretch::resampled_length(n, from, to);
    assert(count == m / d && count <= most);
    lemma_fundamental_div_mod(m, d);
    // the product is close to the exact one
    laws::law_rounding_error(Width::Double, a as nat, d as nat);
    let e2 = m - nr;
    interpolate::lemma_size_product(e2, d, interpolate::size(e2), d);
    assert(m * d - a == e2 * d) by (nonlinear_arith)
        requires
            e2 == m - nr,
            a == nr * d,
    ;
    assert((interpolate::size(e2) * 0x20_0000_0000_0000) * d <= (nr + 0x10_0000_0000_0000) * d) by {
        assert((interpolate::size(e2) * 0x20_0000_0000_0000) * d == (interpolate::size(e2) * d)
            * 0x20_0000_0000_0000) by (nonlinear_arith);
        assert((nr + 0x10_0000_0000_0000) * d == a + 0x10_0000_0000_0000 * d) by (nonlinear_arith)
            requires
                a == nr * d,
        ;
    }
    lemma_cancel(
        interpolate::size(e2) * 0x20_0000_0000_0000,
        nr + 0x10_0000_0000_0000,
        d,
    );
    assert(nr >= r) by (nonlinear_arith)
        requires
            nr == n * r,
            n >= 1,
            r >= 0,
    ;
    assert(interpolate::size(e2) * 0x10_0000_0000_0000 <= nr);
    let y = m * from;
    assert(y - z == n * e1 + from * e2) by (nonlinear_arith)
        requires
            y == m * from,
            e2 == m - nr,
            nr * from == z + n * e1,
    ;
    lemma_two_errors(e1, n as int, e2, from as int);
    assert((from * interpolate::size(e2)) * 0x10_0000_0000_0000 <= nr * from) by (nonlinear_arith)
        requires
            interpolate::size(e2) * 0x10_0000_0000_0000 <= nr,
            from > 0,
    ;
    assert(interpolate::size(y - z) * 0x4_0000_0000_0000 <= z);
    // and so is the count
    let c = count * d;
    assert(c <= m < c + d) by (nonlinear_arith)
        requires
            m == d * count + m % d,
            0 <= m % d < d,
            c == count * d,
    ;
    assert(c * from <= y <= (c + d) * from) by (nonlinear_arith)
        requires
            c <= m < c + d,
            y == m * from,
            from > 0,
    ;
    assert(c * from == (count * from) * d && (c + d) * from == ((count + 1) * from) * d)
        by (nonlinear_arith)
        requires
            c == count * d,
    ;
    let k = count * from;
    let k1 = (count + 1) * from;
    let g = n * to;
    assert((k * 0x4_0000_0000_0000) * d <= (g * 0x4_0000_0000_0001) * d) by {
        assert((k * 0x4_0000_0000_0000) * d == (k * d) * 0x4_0000_0000_0000) by (nonlinear_arith);
        assert((g * 0x4_0000_0000_0001) * d == (g * d) * 0x4_0000_0000_0001) by (nonlinear_arith);
    }
    lemma_cancel(k * 0x4_0000_0000_0000, g * 0x4_0000_0000_0001, d);
    assert((g * 0x3_ffff_ffff_ffff) * d <= (k1 * 0x4_0000_0000_0000) * d) by {
        assert((k1 * 0x4_0000_0000_0000) * d == (k1 * d) * 0x4_0000_0000_0000) by (nonlinear_arith);
        assert((g * 0x3_ffff_ffff_ffff) * d == (g * d) * 0x3_ffff_ffff_ffff) by (nonlinear_arith);
    }
    lemma_cancel(g * 0x3_ffff_ffff_ffff, k1 * 0x4_0000_0000_0000, d);
}

/// How many samples there are at another rate: their number times the new rate
/// over the old, up to rounding; as many as before at the same rate, and none at
/// a rate of zero. `most` is any length that the output does not exceed.
pub proof fn law_resampled_length(samples: Seq<Sample>, from: u32, to: u32, most: nat)
    requires
        0 < samples.len() < 0x20_0000_0000_0000,
        0 < from,
        most <= 0x4_0000_0000_0000,
        most < usize::MAX,
        samples.len() * to <= from * most,
    ensures
        ({
            let n = samples.len() * to;
            let r = stretch::resampled(samples, from, to);
            &&& to == from ==> r == samples
            &&& to == 0 ==> r.len() == 0
            &&& to != from ==> r.len() <= most
            &&& (r.len() * from) * 0x4_0000_0000_0000 <= n * 0x4_0000_0000_0001
            &&& n * 0x3_ffff_ffff_ffff <= ((r.len() + 1) * from) * 0x4_0000_0000_0000
        }),
{
    let n = samples.len();
    let r = stretch::resampled(samples, from, to);
    if from == to {
        assert(n * to * 0x3_ffff_ffff_ffff <= ((n + 1) * from) * 0x4_0000_0000_0000
            && (n * from) * 0x4_0000_0000_0000 <= (n * to) * 0x4_0000_0000_0001)
            by (nonlinear_arith)
            requires
                from == to,
                n >= 0,
        ;
    } else if to == 0 {
        lemma_no_rate(n, from);
        assert(r.len() == 0);
        assert(n * 0 == 0 && 0 * from == 0);
    } else {
        lemma_resampled_count(n, from, to, most);
        reads::law_no_resampled_position_is_skipped(samples, from, to);
    }
}

/// At a rate of zero nothing is read.
proof fn lemma_no_rate(n: nat, from: u32)
    requires
        0 < n < 0x20_0000_0000_0000,
        0 < from,
    ensures
        stretch::resampled_length(n, from, 0) == 0,
{
    lemma_pow2_pos(1074);
    lemma_pow2_pos(52);
    assert(rounding::units(Width::Double, 0) == 0);
    rate::lemma_rate(from);
    rate::lemma_rate(0);
    reads::lemma_exact_index(n);
    let d = pow2(1074);
    assert(0 * d == 0 && (0 * d) * d == 0);
    let b = from * d;
    assert(b > 0) by (nonlinear_arith)
        requires
            b == from * d,
            from > 0,
            d > 0,
    ;
    laws::law_rounding_respects_values(Width::Double, 0, b as nat, 0);
    let ratio = stretch::rate_ratio(from, 0);
    assert(ratio.code == 0);
    let m = number::magnitude(Width::Double, stretch::index_number(n));
    assert(m * 0 == 0);
    laws::law_rounding_respects_values(Width::Double, 0, d, 0);
    lemma_div_of0(d as int);
}

/// Samples at another rate follow the line through those at the old one: the
/// `i`th is what the line has at `i` times the old rate over the new, up to the
/// rounding of the arithmetic.
pub proof fn law_resampled_follows_the_line(
    samples: Seq<Sample>,
    from: u32,
    to: u32,
    bound: nat,
    most: nat,
    i: nat,
)
    requires
        0 < samples.len() < 0x20_0000_0000_0000,
        samples.len() <= usize::MAX,
        0 < from,
        0 < to,
        from != to,
        most <= 0x4_0000_0000_0000,
        most < usize::MAX,
        samples.len() * to <= from * most,
        interpolate::bounded(samples, bound),
        bound <= pow2(275),
        i < stretch::resampled(samples, from, to).len(),
    ensures
        ({
            let r = stretch::resampled(samples, from, to)[i as int].number();
            &&& number::is_finite(Width::Single, r)
            &&& interpolate::on_line(
                number::value(Width::Single, r),
                samples,
                i * from,
                to as int,
                bound,
            )
        }),
{
    let n = samples.len();
    lemma_resampled_count(n, from, to, most);
    lemma_ratio_close(from, to);
    let count = stretch::resampled_length(n, from, to);
    reads::law_no_resampled_position_is_skipped(samples, from, to);
    reads::lemma_resampled_within(n, from, to);
    let position = |j: nat| stretch::resampled_position(from, to, j);
    assert forall|j: nat| j < count implies stretch::read_at(
        samples,
        #[trigger] position(j),
    ).len() == 1 by {
        assert(stretch::as_index(stretch::resampled_position(from, to, j)) < n);
    }
    reads::lemma_reads_in_order(samples, position, count, i);
    let p = stretch::resampled_position(from, to, i);
    assert(stretch::as_index(p) < n);
    lemma2_to64();
    lemma2_to64_rest();
    laws::law_rounding_keeps_multiples(Width::Double, i, 1074);
    let r = number::magnitude(Width::Double, stretch::rate_ratio(from, to));
    laws::law_rounding_respects_values(Width::Double, (i * pow2(1074)) * pow2(1074), r, 0);
    lemma_resampled_position_close(from, to, i);
    interpolate::lemma_on_line(samples, p, i * from, to as int, bound);
}

/// An exact multiple, divided, is its factor.
proof fn lemma_exact_quotient(k: nat, b: nat)
    requires
        k < 0x20_0000_0000_0000,
        b > 0,
    ensures
        rounding::nearest(Width::Double, (k * pow2(1074)) * b, b) == stretch::index_number(k).code,
{
    lemma2_to64();
    lemma2_to64_rest();
    laws::law_rounding_keeps_multiples(Width::Double, k, 1074);
    let c = rounding::nearest(Width::Double, k * pow2(1074), 1);
    laws::law_rounding_respects_values(Width::Double, (k * pow2(1074)) * b, b, c);
}

/// At a rate that is `k` times higher, every `k`th sample is one of the old
/// ones, in their order.
pub proof fn law_whole_rate_keeps_samples(samples: Seq<Sample>, from: u32, k: nat, j: nat)
    requires
        2 <= k,
        0 < from,
        from * k <= u32::MAX,
        j < samples.len(),
        samples.len() * k <= 0x8_0000_0000_0000,
        samples.len() * k < usize::MAX,
        forall|l: int|
            0 <= l < samples.len() ==> number::is_finite(
                Width::Single,
                (#[trigger] samples[l]).number(),
            ),
    ensures
        ({
            let r = stretch::resampled(samples, from, (from * k) as u32);
            &&& r.len() == samples.len() * k
            &&& j * k < r.len()
            &&& number::is_finite(Width::Single, r[(j * k) as int].number())
            &&& number::value(Width::Single, r[(j * k) as int].number()) == number::value(
                Width::Single,
                samples[j as int].number(),
            )
        }),
{
    let n = samples.len();
    let to = (from * k) as u32;
    let d = pow2(1074);
    lemma2_to64();
    lemma2_to64_rest();
    lemma_pow2_pos(1074);
    lemma_pow2_pos(52);
    assert(rounding::units(Width::Double, 0) == 0);
    assert(k <= from * k && from < from * k && n <= n * k && j * k < n * k && j * k >= j)
        by (nonlinear_arith)
        requires
            from >= 1,
            k >= 2,
            j < n,
    ;
    rate::lemma_rate(from);
    rate::lemma_rate(to);
    reads::lemma_exact_index(k);
    reads::lemma_exact_index(n);
    // the ratio is `k`
    let b = from * d;
    assert(b > 0) by (nonlinear_arith)
        requires
            b == from * d,
            from > 0,
            d > 0,
    ;
    assert((to * d) * d == (k * d) * b) by (nonlinear_arith)
        requires
            to == from * k,
            b == from * d,
    ;
    lemma_exact_quotient(k, b as nat);
    let ratio = stretch::rate_ratio(from, to);
    assert(ratio == stretch::index_number(k));
    // so the length is exact
    assert((n * d) * (k * d) == ((n * k) * d) * d) by (nonlinear_arith);
    lemma_exact_quotient(n * k, d);
    let q = number::product(Width::Double, stretch::index_number(n), ratio);
    assert(q == stretch::index_number(n * k));
    laws::law_rounding_keeps_multiples(Width::Double, n * k, 1074);
    lemma_div_by_multiple((n * k) as int, d as int);
    let count = stretch::resampled_length(n, from, to);
    assert(count == n * k);
    // and so is the position
    let s = k * d;
    assert(s > 0) by (nonlinear_arith)
        requires
            s == k * d,
            k >= 2,
            d > 0,
    ;
    laws::law_rounding_keeps_multiples(Width::Double, j * k, 1074);
    assert(((j * k) * d) * d == (j * d) * s) by (nonlinear_arith)
        requires
            s == k * d,
    ;
    lemma_exact_quotient(j, s);
    let p = stretch::resampled_position(from, to, j * k);
    assert(p == stretch::index_number(j));
    reads::lemma_resampled_within(n, from, to);
    let position = |l: nat| stretch::resampled_position(from, to, l);
    assert forall|l: nat| l < count implies stretch::read_at(
        samples,
        #[trigger] position(l),
    ).len() == 1 by {
        assert(stretch::as_index(stretch::resampled_position(from, to, l)) < n);
    }
    reads::lemma_reads_in_order(samples, position, count, j * k);
    assert(n <= n * k);
    speed::law_whole_positions_read_samples(samples, j);
}

/// The positions of a speed never go back.
pub proof fn law_sped_never_goes_back(speed: Number, i: nat, j: nat)
    requires
        0 < speed.code < 0x7f80_0000,
        !speed.negative,
        i <= j < 0x20_0000_0000_0000,
    ensures
        stretch::sped_position(speed, i).code <= stretch::sped_position(speed, j).code,
{
    lemma_wide(speed);
    lemma2_to64();
    lemma2_to64_rest();
    laws::law_rounding_keeps_multiples(Width::Double, i, 1074);
    laws::law_rounding_keeps_multiples(Width::Double, j, 1074);
    let d = pow2(1074);
    let t = number::magnitude(Width::Double, number::widened(speed));
    let (a, b) = ((i * d) * t, (j * d) * t);
    assert(a * d <= b * d) by (nonlinear_arith)
        requires
            a == (i * d) * t,
            b == (j * d) * t,
            i <= j,
    ;
    laws::law_rounding_keeps_order(Width::Double, a, d, b, d);
    laws::law_rounding_respects_values(Width::Double, a, d, 0);
    laws::law_rounding_respects_values(Width::Double, b, d, 0);
}

/// The positions of a change of rate never go back.
pub proof fn law_resampled_never_goes_back(from: u32, to: u32, i: nat, j: nat)
    requires
        0 < from,
        0 < to,
        from != to,
        i <= j < 0x20_0000_0000_0000,
    ensures
        stretch::resampled_position(from, to, i).code <= stretch::resampled_position(
            from,
            to,
            j,
        ).code,
{
    lemma_ratio_close(from, to);
    lemma2_to64();
    lemma2_to64_rest();
    laws::law_rounding_keeps_multiples(Width::Double, i, 1074);
    laws::law_rounding_keeps_multiples(Width::Double, j, 1074);
    let d = pow2(1074);
    let r = number::magnitude(Width::Double, stretch::rate_ratio(from, to));
    let (a, b) = ((i * d) * d, (j * d) * d);
    assert(a * r <= b * r) by (nonlinear_arith)
        requires
            a == (i * d) * d,
            b == (j * d) * d,
            i <= j,
    ;
    laws::law_rounding_keeps_order(Width::Double, a, r, b, r);
    laws::law_rounding_respects_values(Width::Double, a, r, 0);
    laws::law_rounding_respects_values(Width::Double, b, r, 0);
}

/// Nothing is read of nothing.
proof fn lemma_nothing(position: spec_fn(nat) -> Number, count: nat)
    ensures
        stretch::read_along(seq![], position, count) == Seq::<Sample>::empty(),
    decreases count,
{
    if count > 0 {
        lemma_nothing(position, (count - 1) as nat);
    }
    assert(stretch::read_along(seq![], position, count) =~= Seq::<Sample>::empty());
}

/// Nothing stays nothing, at any speed and at any rate.
pub proof fn law_nothing_stays_nothing(speed: Number, from: u32, to: u32)
    ensures
        stretch::sped(seq![], speed) == Seq::<Sample>::empty(),
        stretch::resampled(seq![], from, to) == Seq::<Sample>::empty(),
{
    lemma_nothing(
        |i: nat| stretch::resampled_position(from, to, i),
        stretch::resampled_length(0, from, to),
    );
    assert(stretch::sped(seq![], speed) =~= Seq::<Sample>::empty());
    assert(stretch::resampled(seq![], from, to) =~= Seq::<Sample>::empty());
}

/// What fits one allocation: samples of four bytes each.
pub proof fn law_allocation_limit(count: nat)
    ensures
        count <= stretch::allocation_limit() <==> 4 * count <= isize::MAX,
{
}

/// A change of rate asks for no more positions than the exact number.
pub(crate) proof fn lemma_resampled_most(n: nat, from: u32, to: u32, most: nat)
    requires
        0 < n < 0x20_0000_0000_0000,
        0 < from,
        from != to,
        most <= 0x4_0000_0000_0000,
        most < usize::MAX,
        n * to <= from * most,
    ensures
        stretch::resampled_length(n, from, to) <= most,
{
    if to == 0 {
        lemma_no_rate(n, from);
    } else {
        lemma_resampled_count(n, from, to, most);
    }
}

} // verus!
