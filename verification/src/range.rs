//! Laws of the range of samples: what lies between minus one and one stays there
//! when speed or rate change.

use crate::laws;
use crate::number;
use crate::number::Number;
use crate::rate;
use crate::rounding;
use crate::rounding::Width;
use crate::sample;
use crate::sample::Sample;
use crate::speed;
use crate::stretch;
use vstd::arithmetic::div_mod::*;
use vstd::arithmetic::power2::*;
use vstd::prelude::*;

verus! {

/// The number lies between minus one and one.
pub open spec fn within_one(x: Number) -> bool {
    number::is_finite(Width::Single, x) && number::magnitude(Width::Single, x) <= pow2(149)
}

/// All samples lie between minus one and one.
pub open spec fn all_within_one(samples: Seq<Sample>) -> bool {
    forall|i: int| 0 <= i < samples.len() ==> within_one((#[trigger] samples[i]).number())
}

/// One, and the next number above it.
proof fn lemma_one()
    ensures
        rounding::units(Width::Single, 0x3f80_0000) == pow2(149),
        rounding::units(Width::Single, 0x3f80_0001) == pow2(149) + pow2(126),
        pow2(149) == 0x80_0000 * pow2(126),
        pow2(126) == 4 * pow2(124),
        pow2(125) == 2 * pow2(124),
        pow2(149) == 0x100_0000 * pow2(125),
{
    lemma2_to64();
    lemma_pow2_adds(23, 126);
    lemma_pow2_adds(2, 124);
    lemma_pow2_adds(1, 124);
    lemma_pow2_adds(24, 125);
    assert(0x3f80_0000int / 0x80_0000 == 127 && 0x3f80_0000int % 0x80_0000 == 0);
    assert(0x3f80_0001int / 0x80_0000 == 127 && 0x3f80_0001int % 0x80_0000 == 1);
    let g = pow2(126);
    assert((0x80_0000 + 1) * g == 0x80_0000 * g + g) by (nonlinear_arith);
}

/// What is at most one is rounded by at most `2^-25`.
proof fn lemma_rounded_by(a: nat)
    requires
        a <= pow2(149),
    ensures
        rounding::nearest(Width::Single, a, 1) < rounding::infinity(Width::Single),
        laws::distance(
            a as int,
            rounding::units(Width::Single, rounding::nearest(Width::Single, a, 1)) as int,
        ) <= pow2(124),
{
    lemma_one();
    lemma2_to64();
    lemma_pow2_pos(124);
    lemma_pow2_pos(125);
    laws::law_rounding_respects_values(Width::Single, a, 1, 0x3f80_0000);
    let n = rounding::nearest(Width::Single, a, 1);
    let g = pow2(125) as int;
    let t = a as int / g;
    lemma_fundamental_div_mod(a as int, g);
    assert(0 <= t <= 0x100_0000) by (nonlinear_arith)
        requires
            a == g * t + a as int % g,
            0 <= a as int % g,
            (a as int % g) < g,
            0 <= a <= 0x100_0000 * g,
            g > 0,
    ;
    assert(g * t == t * g && (t + 1) * g == t * g + g) by (nonlinear_arith);
    if t == 0x100_0000 {
        laws::law_rounding_is_nearest(Width::Single, a, 1, 0x3f80_0000);
    } else {
        laws::law_rounding_keeps_multiples(Width::Single, t as nat, 125);
        let low = rounding::nearest(Width::Single, t as nat * pow2(125), 1);
        laws::law_rounding_is_nearest(Width::Single, a, 1, low);
        let high = if t + 1 < 0x100_0000 {
            laws::law_rounding_keeps_multiples(Width::Single, (t + 1) as nat, 125);
            rounding::nearest(Width::Single, (t + 1) as nat * pow2(125), 1)
        } else {
            0x3f80_0000
        };
        laws::law_rounding_is_nearest(Width::Single, a, 1, high);
    }
}

/// What exceeds one by at most `2^-25` is rounded to one at most.
proof fn lemma_rounds_to_one(a: nat)
    requires
        a <= pow2(149) + pow2(124),
    ensures
        rounding::nearest(Width::Single, a, 1) <= 0x3f80_0000,
{
    lemma_one();
    lemma2_to64();
    lemma_pow2_pos(124);
    let most = pow2(149) + pow2(124);
    laws::law_rounding_keeps_order(Width::Single, a, 1, most, 1);
    let n = rounding::nearest(Width::Single, most, 1);
    laws::law_rounding_respects_values(Width::Single, most, 1, 0x3f80_0001);
    laws::law_rounding_is_nearest(Width::Single, most, 1, 0x3f80_0000);
    if n == 0x3f80_0001 {
        assert(laws::distance(most as int, rounding::units(Width::Single, n) as int) == 3 * pow2(
            124,
        ));
    }
}

/// A product with a number in the range is no larger than the other factor.
pub(crate) proof fn lemma_product_within(x: Number, y: Number)
    requires
        within_one(x),
        number::is_finite(Width::Single, y),
    ensures
        number::is_finite(Width::Single, number::product(Width::Single, x, y)),
        number::magnitude(Width::Single, number::product(Width::Single, x, y))
            <= number::magnitude(Width::Single, y),
{
    let (m, n) = (number::magnitude(Width::Single, x), number::magnitude(Width::Single, y));
    let one = pow2(149);
    lemma_pow2_pos(149);
    assert(m * n <= n * one) by (nonlinear_arith)
        requires
            m <= one,
            n >= 0,
    ;
    laws::law_rounding_respects_values(Width::Single, m * n, one, y.code as nat);
    let p = number::product(Width::Single, x, y);
    laws::law_codes_keep_order(Width::Single, y.code as nat, p.code as nat);
}

/// A blend of two samples in the range lies in the range.
pub proof fn law_blend_stays_within_one(a: Sample, b: Sample, fraction: Number)
    requires
        within_one(a.number()),
        within_one(b.number()),
        within_one(fraction),
        !fraction.negative,
    ensures
        within_one(stretch::blended(a, b, fraction)),
{
    lemma_one();
    lemma_pow2_pos(23);
    lemma_pow2_pos(149);
    assert(rounding::units(Width::Single, 0) == 0);
    let f = number::magnitude(Width::Single, fraction);
    let one = pow2(149);
    let left = number::difference(Width::Single, sample::one(false), fraction);
    let rest = (one - f) as nat;
    lemma_rounded_by(rest);
    assert(number::is_finite(Width::Single, left));
    assert(number::magnitude(Width::Single, left) + f <= one + pow2(124));
    lemma_product_within(a.number(), left);
    lemma_product_within(b.number(), fraction);
    let p = number::product(Width::Single, a.number(), left);
    let q = number::product(Width::Single, b.number(), fraction);
    let s = number::value(Width::Single, p) + number::value(Width::Single, q);
    let n = if s < 0 {
        (-s) as nat
    } else {
        s as nat
    };
    lemma_rounds_to_one(n);
    let r = stretch::blended(a, b, fraction);
    assert(r.code <= 0x3f80_0000);
    laws::law_codes_keep_order(Width::Single, 0x3f80_0000, r.code as nat);
}

/// A position lies past its index by one at most.
pub(crate) proof fn lemma_fraction(position: Number)
    requires
        number::is_finite(Width::Double, position),
        !position.negative,
        stretch::as_index(position) < 0x20_0000_0000_0000,
        stretch::as_index(position) < usize::MAX,
    ensures
        ({
            let fraction = stretch::fraction_past(position, stretch::as_index(position));
            within_one(fraction) && !fraction.negative
        }),
{
    let index = stretch::as_index(position);
    let one = pow2(1074);
    lemma2_to64();
    lemma2_to64_rest();
    lemma_one();
    lemma_pow2_pos(1074);
    lemma_pow2_pos(925);
    lemma_pow2_pos(52);
    lemma_pow2_pos(23);
    lemma_pow2_adds(149, 925);
    lemma_pow2_adds(52, 1022);
    let m = number::magnitude(Width::Double, position);
    lemma_fundamental_div_mod(m as int, one as int);
    assert(index == m / one);
    assert(one * index == index * one) by (nonlinear_arith);
    laws::law_rounding_keeps_multiples(Width::Double, index, 1074);
    let x = stretch::index_number(index);
    let s = (m - index * one) as nat;
    assert(s < one);
    let past = number::difference(Width::Double, position, x);
    // one at double width
    assert(0x3ff0_0000_0000_0000int / 0x10_0000_0000_0000 == 1023);
    assert(0x3ff0_0000_0000_0000int % 0x10_0000_0000_0000 == 0);
    assert(rounding::units(Width::Double, 0x3ff0_0000_0000_0000) == one);
    laws::law_rounding_respects_values(Width::Double, s, 1, 0x3ff0_0000_0000_0000);
    assert(rounding::units(Width::Double, 0) == 0);
    assert(past.code <= 0x3ff0_0000_0000_0000 && !past.negative);
    laws::law_codes_keep_order(Width::Double, 0x3ff0_0000_0000_0000, past.code as nat);
    let w = number::magnitude(Width::Double, past);
    assert(w <= pow2(149) * pow2(925));
    laws::law_rounding_respects_values(Width::Single, w, pow2(925), 0x3f80_0000);
    let fraction = number::narrowed(past);
    laws::law_codes_keep_order(Width::Single, 0x3f80_0000, fraction.code as nat);
}

/// What is read of samples in the range lies in the range.
proof fn lemma_read_within(samples: Seq<Sample>, position: Number)
    requires
        all_within_one(samples),
        samples.len() <= 0x20_0000_0000_0000,
        samples.len() <= usize::MAX,
        !number::is_nan(Width::Double, position),
        !position.negative,
    ensures
        all_within_one(stretch::read_at(samples, position)),
{
    let index = stretch::as_index(position) as int;
    if index + 1 < samples.len() {
        lemma_fraction(position);
        let fraction = stretch::fraction_past(position, index as nat);
        law_blend_stays_within_one(samples[index], samples[index + 1], fraction);
        let r = stretch::blended(samples[index], samples[index + 1], fraction);
        assert(Sample::of(r).number() == r);
    }
}

/// So does what is read along positions.
proof fn lemma_reads_within(
    samples: Seq<Sample>,
    position: spec_fn(nat) -> Number,
    count: nat,
)
    requires
        all_within_one(samples),
        samples.len() <= 0x20_0000_0000_0000,
        samples.len() <= usize::MAX,
        forall|i: nat|
            i < count ==> !number::is_nan(Width::Double, #[trigger] position(i)) && !position(
                i,
            ).negative,
    ensures
        all_within_one(stretch::read_along(samples, position, count)),
    decreases count,
{
    if count > 0 {
        let before = (count - 1) as nat;
        lemma_reads_within(samples, position, before);
        assert(!position(before).negative);
        lemma_read_within(samples, position(before));
        let first = stretch::read_along(samples, position, before);
        let last = stretch::read_at(samples, position(before));
        assert forall|i: int| 0 <= i < (first + last).len() implies within_one(
            (#[trigger] (first + last)[i]).number(),
        ) by {
            if i < first.len() {
                assert(within_one(first[i].number()));
            } else {
                assert(within_one(last[i - first.len()].number()));
            }
        }
    }
}

/// A change of speed does not leave the range.
pub proof fn law_sped_stays_within_one(samples: Seq<Sample>, speed: Number)
    requires
        all_within_one(samples),
        samples.len() <= 0x20_0000_0000_0000,
        samples.len() <= usize::MAX,
    ensures
        all_within_one(stretch::sped(samples, speed)),
{
    let n = samples.len();
    let count = stretch::sped_length(n, speed);
    if n > 0 && count > 0 {
        let position = |i: nat| stretch::sped_position(speed, i);
        let wide = number::widened(speed);
        speed::lemma_index_number(n);
        lemma_pow2_pos(1074);
        lemma_pow2_pos(52);
        assert(rounding::units(Width::Double, 0) == 0);
        if number::is_infinite(Width::Single, speed) {
            lemma_div_of0(pow2(1074) as int);
        }
        assert(number::is_finite(Width::Single, speed) && !speed.negative) by {
            if number::is_finite(Width::Single, speed) {
                speed::lemma_widened(speed);
            }
        }
        speed::lemma_widened(speed);
        assert forall|i: nat| i < count implies !number::is_nan(
            Width::Double,
            #[trigger] position(i),
        ) && !position(i).negative by {
            let x = stretch::index_number(i);
            if i > 0 {
                speed::lemma_index_number(i);
            } else {
                assert(0 * pow2(1074) == 0);
                laws::law_rounding_respects_values(Width::Double, 0, 1, 0);
            }
            let m = number::magnitude(Width::Double, x) * number::magnitude(Width::Double, wide);
            laws::law_rounding_respects_values(Width::Double, m, pow2(1074), 0);
        }
        lemma_reads_within(samples, position, count);
    }
}

/// A change of rate does not leave the range.
pub proof fn law_resampled_stays_within_one(samples: Seq<Sample>, from: u32, to: u32)
    requires
        all_within_one(samples),
        samples.len() <= 0x20_0000_0000_0000,
        samples.len() <= usize::MAX,
        0 < from,
    ensures
        all_within_one(stretch::resampled(samples, from, to)),
{
    let count = stretch::resampled_length(samples.len(), from, to);
    if from != to {
        rate::lemma_ratio(from, to);
        let position = |i: nat| stretch::resampled_position(from, to, i);
        let ratio = stretch::rate_ratio(from, to);
        lemma_pow2_pos(1074);
        lemma_pow2_pos(52);
        assert(rounding::units(Width::Double, 0) == 0);
        if ratio.code == 0 {
            // nothing is read at a rate of nothing
            let x = stretch::index_number(samples.len());
            let m = number::magnitude(Width::Double, x);
            assert(m * 0 == 0);
            laws::law_rounding_respects_values(Width::Double, 0, pow2(1074), 0);
            lemma_div_of0(pow2(1074) as int);
            if samples.len() > 0 {
                speed::lemma_index_number(samples.len());
            } else {
                assert(0 * pow2(1074) == 0);
                laws::law_rounding_respects_values(Width::Double, 0, 1, 0);
            }
            assert(count == 0);
        }
        assert forall|i: nat| i < count implies !number::is_nan(
            Width::Double,
            #[trigger] position(i),
        ) && !position(i).negative by {
            let x = stretch::index_number(i);
            if i > 0 {
                speed::lemma_index_number(i);
            } else {
                assert(0 * pow2(1074) == 0);
                laws::law_rounding_respects_values(Width::Double, 0, 1, 0);
            }
            let r = number::magnitude(Width::Double, ratio);
            laws::law_codes_keep_order(Width::Double, 0, ratio.code as nat);
            let m = number::magnitude(Width::Double, x) * pow2(1074);
            laws::law_rounding_respects_values(Width::Double, m, r, 0);
        }
        lemma_reads_within(samples, position, count);
    }
}

} // verus!
