//! Laws of the speed adjustment: a higher speed never lengthens the audio, a
//! lower one never shortens it.

use crate::arithmetic;
use crate::laws;
use crate::number;
use crate::number::Number;
use crate::rounding;
use crate::rounding::Width;
use crate::sample;
use crate::sample::Sample;
use crate::stretch;
use vstd::arithmetic::div_mod::*;
use vstd::arithmetic::mul::*;
use vstd::arithmetic::power2::*;
use vstd::prelude::*;

verus! {

/// Reading along positions gives at most one sample for each.
pub proof fn law_reads_at_most_once(
    samples: Seq<Sample>,
    position: spec_fn(nat) -> Number,
    count: nat,
)
    ensures
        stretch::read_along(samples, position, count).len() <= count,
    decreases count,
{
    if count > 0 {
        law_reads_at_most_once(samples, position, (count - 1) as nat);
    }
}

/// Reading along positions within the samples gives one sample for each.
pub proof fn law_reads_each_within(
    samples: Seq<Sample>,
    position: spec_fn(nat) -> Number,
    within: nat,
    count: nat,
)
    requires
        within <= count,
        forall|i: nat| i < within ==> stretch::as_index(#[trigger] position(i)) < samples.len(),
    ensures
        stretch::read_along(samples, position, count).len() >= within,
    decreases count,
{
    if count > 0 {
        let before = (count - 1) as nat;
        if within == count {
            law_reads_each_within(samples, position, before, before);
            assert(stretch::as_index(position(before)) < samples.len());
        } else {
            law_reads_each_within(samples, position, within, before);
        }
    }
}

/// Values next to each other differ by at most one part in `2^52`.
pub(crate) proof fn lemma_neighbours(c: nat)
    requires
        c >= 0x20_0000_0000_0000,
    ensures
        rounding::units(Width::Double, (c - 1) as nat) * 0x10_0000_0000_0000
            >= rounding::units(Width::Double, c) * 0xf_ffff_ffff_ffff,
        rounding::units(Width::Double, c + 1) * 0x10_0000_0000_0000
            <= rounding::units(Width::Double, c) * 0x10_0000_0000_0001,
{
    lemma_next(c);
    lemma_next((c - 1) as nat);
    let lead = 0x10_0000_0000_0000int;
    let u = rounding::units(Width::Double, c) as int;
    let t = rounding::units(Width::Double, (c - 1) as nat) as int;
    // u * lead <= t * (lead + 1), so t * lead >= u * (lead - 1)
    assert(t * lead >= u * (lead - 1)) by (nonlinear_arith)
        requires
            u * lead <= t * (lead + 1),
            u >= 0,
            t >= 0,
            lead > 1,
    ;
}

/// The next value up is at most one part in `2^52` larger.
proof fn lemma_next(c: nat)
    requires
        c >= 0x10_0000_0000_0000,
    ensures
        rounding::units(Width::Double, c + 1) * 0x10_0000_0000_0000
            <= rounding::units(Width::Double, c) * 0x10_0000_0000_0001,
{
    lemma2_to64();
    lemma2_to64_rest();
    let lead = pow2(52);
    assert(lead == 0x10_0000_0000_0000);
    let q = c / lead;
    let r = c % lead;
    lemma_fundamental_div_mod(c as int, lead as int);
    let k = (q - 1) as nat;
    let g = pow2(k) as int;
    lemma_pow2_pos(k);
    assert(rounding::units(Width::Double, c) == (lead + r) * g);
    if r + 1 < lead {
        lemma_fundamental_div_mod_converse((c + 1) as int, lead as int, q as int, (r + 1) as int);
    } else {
        assert(lead * q + lead == lead * (q + 1)) by (nonlinear_arith);
        lemma_fundamental_div_mod_converse((c + 1) as int, lead as int, (q + 1) as int, 0);
        lemma_pow2_unfold(q);
        assert((lead + 0) * (2 * g) == (lead + r + 1) * g) by (nonlinear_arith)
            requires
                r + 1 == lead,
        ;
    }
    assert(rounding::units(Width::Double, c + 1) == (lead + r + 1) * g);
    assert(((lead + r + 1) * g) * lead <= ((lead + r) * g) * (lead + 1)) by (nonlinear_arith)
        requires
            g > 0,
            lead > 0,
            r >= 0,
    ;
}

/// Lengths and indices as numbers: a value next to which the length lies.
pub(crate) proof fn lemma_index_number(n: nat)
    requires
        0 < n <= u64::MAX,
    ensures
        ({
            let x = stretch::index_number(n);
            &&& !x.negative
            &&& 0x3ff0_0000_0000_0000 <= x.code <= 0x43f0_0000_0000_0000
            &&& rounding::units(Width::Double, (x.code - 1) as nat) < n * pow2(1074)
            &&& n * pow2(1074) < rounding::units(Width::Double, (x.code + 1) as nat)
        }),
{
    let one = pow2(1074);
    lemma_pow2_pos(1074);
    lemma2_to64();
    lemma2_to64_rest();
    let lead = pow2(52);
    let low = 0x3ff0_0000_0000_0000nat;
    let high = 0x43f0_0000_0000_0000nat;
    lemma_pow2_adds(52, 1022);
    lemma_pow2_adds(52, 1086);
    lemma_pow2_adds(64, 1074);
    assert(low as int / lead as int == 1023 && low as int % lead as int == 0);
    assert(high as int / lead as int == 1087 && high as int % lead as int == 0);
    assert(rounding::units(Width::Double, low) == one);
    assert(rounding::units(Width::Double, high) == pow2(64) * one);
    assert(one <= n * one <= pow2(64) * one) by (nonlinear_arith)
        requires
            1 <= n <= pow2(64),
            one > 0,
    ;
    laws::law_rounding_respects_values(Width::Double, n * one, 1, low);
    laws::law_rounding_respects_values(Width::Double, n * one, 1, high);
    let c = rounding::nearest(Width::Double, n * one, 1);
    laws::law_rounding_respects_values(Width::Double, n * one, 1, (c - 1) as nat);
    laws::law_rounding_respects_values(Width::Double, n * one, 1, c + 1);
}

/// A finite single has the same value at double width.
pub(crate) proof fn lemma_widened(x: Number)
    requires
        number::is_finite(Width::Single, x),
    ensures
        ({
            let y = number::widened(x);
            &&& y.negative == x.negative
            &&& number::is_finite(Width::Double, y)
            &&& number::magnitude(Width::Double, y) == number::magnitude(Width::Single, x) * pow2(
                925,
            )
        }),
{
    lemma2_to64();
    lemma2_to64_rest();
    let lead = pow2(23);
    let c = x.code as nat;
    let (s, e) = if c < lead {
        (c, 0nat)
    } else {
        ((lead + c % lead) as nat, (c / lead - 1) as nat)
    };
    if c >= lead {
        lemma_fundamental_div_mod(c as int, lead as int);
    } else {
        assert(c * pow2(0) == c);
    }
    assert(number::magnitude(Width::Single, x) == s * pow2(e));
    assert(e <= 253);
    lemma_pow2_adds(e, 925);
    lemma_mul_is_associative(s as int, pow2(e) as int, pow2(925) as int);
    laws::law_rounding_keeps_multiples(Width::Double, s, e + 925);
}

/// The single next below one counts as one.
pub(crate) proof fn lemma_just_below_one(speed: Number)
    requires
        speed == (Number { negative: false, code: 0x3f7f_ffff }),
    ensures
        stretch::near_one(speed),
{
    lemma2_to64();
    lemma_one();
    lemma_pow2_adds(24, 125);
    lemma_pow2_unfold(126);
    lemma_pow2_pos(125);
    assert(0x3f7f_ffffint / 0x80_0000 == 126);
    assert(0x3f7f_ffffint % 0x80_0000 == 0x7f_ffff);
    let g = pow2(125);
    assert(number::magnitude(Width::Single, speed) == 0xff_ffff * g);
    assert(pow2(149) == 0x100_0000 * g);
    assert(1 * g == g);
    laws::law_rounding_keeps_multiples(Width::Single, 1, 125);
}

/// One is `2^149` units of single width.
proof fn lemma_one()
    ensures
        rounding::units(Width::Single, 0x3f80_0000) == pow2(149),
{
    lemma2_to64();
    lemma_pow2_adds(23, 126);
    assert(0x3f80_0000int / 0x80_0000 == 127);
    assert(0x3f80_0000int % 0x80_0000 == 0);
}

/// A speed above one is by at least one part in `2^23` above it.
pub(crate) proof fn lemma_fast(speed: Number)
    requires
        number::is_finite(Width::Single, speed),
        !speed.negative,
        speed.code > 0x3f80_0000,
    ensures
        !stretch::near_one(speed),
        number::magnitude(Width::Double, number::widened(speed)) * 0x80_0000 >= pow2(1074)
            * 0x80_0001,
        number::is_finite(Width::Double, number::widened(speed)),
        !number::widened(speed).negative,
{
    lemma2_to64();
    lemma_one();
    lemma_widened(speed);
    lemma_pow2_adds(23, 126);
    lemma_pow2_adds(149, 925);
    lemma_pow2_pos(126);
    lemma_pow2_pos(925);
    assert(0x3f80_0001int / 0x80_0000 == 127);
    assert(0x3f80_0001int % 0x80_0000 == 1);
    let g = pow2(126) as int;
    let h = pow2(925) as int;
    let u = number::magnitude(Width::Single, speed) as int;
    laws::law_codes_keep_order(Width::Single, speed.code as nat, 0x3f80_0001);
    assert(rounding::units(Width::Single, 0x3f80_0001) == 0x80_0001 * g);
    assert(u >= 0x80_0001 * g);
    assert((u * h) * 0x80_0000 >= pow2(1074) * 0x80_0001) by (nonlinear_arith)
        requires
            u >= 0x80_0001 * g,
            pow2(1074) == (0x80_0000 * g) * h,
            h > 0,
    ;
    // the difference from one does not get below `2^-23`
    assert(0x3400_0000int / 0x80_0000 == 104);
    assert(0x3400_0000int % 0x80_0000 == 0);
    lemma_pow2_adds(23, 103);
    let s = u - pow2(149);
    assert(pow2(149) == 0x80_0000 * g);
    assert(s >= g);
    laws::law_rounding_respects_values(Width::Single, s as nat, 1, 0x3400_0000);
    let d = rounding::nearest(Width::Single, s as nat, 1);
    laws::law_codes_keep_order(Width::Single, d, 0x3400_0000);
}

/// A speed below one that does not count as one is by at least one part in
/// `2^23` below it.
proof fn lemma_slow(speed: Number)
    requires
        !speed.negative,
        0 < speed.code < 0x3f80_0000,
        !stretch::near_one(speed),
    ensures
        number::magnitude(Width::Double, number::widened(speed)) * 0x80_0000 <= pow2(1074)
            * 0x7f_ffff,
        number::magnitude(Width::Double, number::widened(speed)) > 0,
        number::is_finite(Width::Double, number::widened(speed)),
        !number::widened(speed).negative,
{
    lemma2_to64();
    lemma_widened(speed);
    if speed.code == 0x3f7f_ffff {
        lemma_just_below_one(speed);
    }
    lemma_pow2_adds(24, 125);
    lemma_pow2_adds(149, 925);
    lemma_pow2_pos(125);
    lemma_pow2_pos(925);
    assert(0x3f7f_fffeint / 0x80_0000 == 126);
    assert(0x3f7f_fffeint % 0x80_0000 == 0x7f_fffe);
    let g = pow2(125) as int;
    let h = pow2(925) as int;
    let u = number::magnitude(Width::Single, speed) as int;
    laws::law_codes_keep_order(Width::Single, speed.code as nat, 0x3f7f_fffe);
    laws::law_codes_keep_order(Width::Single, 0, speed.code as nat);
    assert(rounding::units(Width::Single, 0) == 0);
    assert(rounding::units(Width::Single, 0x3f7f_fffe) == 0xff_fffe * g);
    assert(0 < u <= 0xff_fffe * g);
    assert((u * h) * 0x80_0000 <= pow2(1074) * 0x7f_ffff && u * h > 0) by (nonlinear_arith)
        requires
            0 < u <= 0xff_fffe * g,
            pow2(1074) == (0x100_0000 * g) * h,
            h > 0,
            g > 0,
    ;
}

/// What is below `n` ones has a whole part below `n`.
pub(crate) proof fn lemma_whole_below(w: Width, x: Number, n: nat)
    requires
        number::magnitude(w, x) < n * pow2(rounding::depth(w)),
    ensures
        number::whole_part(w, x) < n,
{
    let one = pow2(rounding::depth(w)) as int;
    let u = number::magnitude(w, x) as int;
    lemma_pow2_pos(rounding::depth(w));
    lemma_fundamental_div_mod(u, one);
    let q = u / one;
    assert(q < n) by (nonlinear_arith)
        requires
            u == one * q + u % one,
            u % one >= 0,
            u < n * one,
            one > 0,
    ;
}

/// What is at least `n` ones has a whole part of at least `n`.
pub(crate) proof fn lemma_whole_above(w: Width, x: Number, n: nat)
    requires
        number::magnitude(w, x) >= n * pow2(rounding::depth(w)),
    ensures
        number::whole_part(w, x) >= n,
{
    let one = pow2(rounding::depth(w)) as int;
    let u = number::magnitude(w, x) as int;
    lemma_pow2_pos(rounding::depth(w));
    lemma_fundamental_div_mod(u, one);
    let q = u / one;
    assert(q >= n) by (nonlinear_arith)
        requires
            u == one * q + u % one,
            u % one < one,
            u >= n * one,
            one > 0,
    ;
}

/// A speed above one shortens the audio, unless nothing would be left: then
/// the audio stays as it is.
pub proof fn law_faster_is_shorter(samples: Seq<Sample>, speed: Number)
    requires
        samples.len() <= usize::MAX,
        number::fits(Width::Single, speed),
        !number::is_nan(Width::Single, speed),
        !speed.negative,
        speed.code > 0x3f80_0000,
    ensures
        samples.len() > 0 && stretch::sped_length(samples.len(), speed) > 0 ==> stretch::sped(
            samples,
            speed,
        ).len() < samples.len(),
        samples.len() == 0 || stretch::sped_length(samples.len(), speed) == 0 ==> stretch::sped(
            samples,
            speed,
        ) == samples,
{
    let n = samples.len();
    if n > 0 && number::is_finite(Width::Single, speed) {
        lemma_fast(speed);
        lemma_index_number(n);
        let one = pow2(1074);
        let wide = number::widened(speed);
        let x = stretch::index_number(n);
        let c = x.code as nat;
        let d = (c - 1) as nat;
        let u = rounding::units(Width::Double, c);
        let t = rounding::units(Width::Double, d);
        let s = number::magnitude(Width::Double, wide);
        lemma_neighbours(c);
        lemma_pow2_pos(1074);
        assert(s > 0) by (nonlinear_arith)
            requires
                s * 0x80_0000 >= one * 0x80_0001,
                one > 0,
        ;
        if wide.code == 0 {
            lemma_pow2_pos(52);
            assert(rounding::units(Width::Double, 0) == 0);
        }
        assert(u * one <= t * s) by (nonlinear_arith)
            requires
                t * 0x10_0000_0000_0000 >= u * 0xf_ffff_ffff_ffff,
                s * 0x80_0000 >= one * 0x80_0001,
                u >= 0,
                t >= 0,
                one > 0,
                s > 0,
        ;
        laws::law_rounding_respects_values(Width::Double, u * one, s, d);
        let q = number::quotient(Width::Double, x, wide);
        laws::law_codes_keep_order(Width::Double, d, q.code as nat);
        lemma_whole_below(Width::Double, q, n);
        assert(stretch::sped_length(n, speed) < n);
    }
    if number::is_infinite(Width::Single, speed) {
        lemma_pow2_pos(52);
        lemma_pow2_pos(1074);
        assert(rounding::units(Width::Double, 0) == 0);
        lemma_div_of0(pow2(1074) as int);
        if n > 0 {
            lemma_index_number(n);
        }
    }
    let count = stretch::sped_length(n, speed);
    law_reads_at_most_once(samples, |i: nat| stretch::sped_position(speed, i), count);
}

/// A speed below one does not shorten the audio, and lengthens it if it asks
/// for more positions than there are samples.
pub proof fn law_slower_is_not_shorter(samples: Seq<Sample>, speed: Number)
    requires
        samples.len() <= usize::MAX,
        !speed.negative,
        0 < speed.code < 0x3f80_0000,
    ensures
        stretch::sped(samples, speed).len() >= samples.len(),
        !stretch::near_one(speed) && 0 < samples.len() < stretch::sped_length(
            samples.len(),
            speed,
        ) ==> stretch::sped(samples, speed).len() > samples.len(),
{
    let n = samples.len();
    if n > 0 && !stretch::near_one(speed) {
        lemma_slow(speed);
        lemma_index_number(n);
        let one = pow2(1074);
        lemma_pow2_pos(1074);
        let wide = number::widened(speed);
        let s = number::magnitude(Width::Double, wide);
        if wide.code == 0 {
            lemma_pow2_pos(52);
            assert(rounding::units(Width::Double, 0) == 0);
        }
        // there are at least `n` positions
        let x = stretch::index_number(n);
        let c = x.code as nat;
        let u = rounding::units(Width::Double, c);
        let v = rounding::units(Width::Double, c + 1);
        lemma_neighbours(c);
        assert(v * s <= u * one) by (nonlinear_arith)
            requires
                v * 0x10_0000_0000_0000 <= u * 0x10_0000_0000_0001,
                s * 0x80_0000 <= one * 0x7f_ffff,
                u >= 0,
                v >= 0,
                one > 0,
                s > 0,
        ;
        laws::law_rounding_respects_values(Width::Double, u * one, s, c + 1);
        let q = number::quotient(Width::Double, x, wide);
        laws::law_codes_keep_order(Width::Double, q.code as nat, c + 1);
        lemma_whole_above(Width::Double, q, n);
        let count = stretch::sped_length(n, speed);
        assert(count >= n);
        // the first `n` of them lie within the samples
        let position = |i: nat| stretch::sped_position(speed, i);
        assert forall|i: nat| i < n implies stretch::as_index(#[trigger] position(i)) < n by {
            lemma_position_within(speed, i);
        }
        law_reads_each_within(samples, position, n, count);
        if n < count {
            lemma_position_within(speed, n);
            assert forall|i: nat| i < n + 1 implies stretch::as_index(#[trigger] position(i)) < n by {
                lemma_position_within(speed, i);
            }
            law_reads_each_within(samples, position, n + 1, count);
        }
    }
}

/// At a speed below one, a position does not run ahead of its number.
proof fn lemma_position_within(speed: Number, i: nat)
    requires
        i <= u64::MAX,
        !speed.negative,
        0 < speed.code < 0x3f80_0000,
        !stretch::near_one(speed),
    ensures
        stretch::as_index(stretch::sped_position(speed, i)) <= i,
        i > 0 ==> stretch::as_index(stretch::sped_position(speed, i)) < i,
{
    lemma_slow(speed);
    let one = pow2(1074);
    lemma_pow2_pos(1074);
    lemma_pow2_pos(52);
    let wide = number::widened(speed);
    let s = number::magnitude(Width::Double, wide);
    let p = stretch::sped_position(speed, i);
    assert(rounding::units(Width::Double, 0) == 0);
    if i == 0 {
        assert(0 * one == 0);
        laws::law_rounding_respects_values(Width::Double, 0, 1, 0);
        assert(0 * s == 0);
        laws::law_rounding_respects_values(Width::Double, 0, one, 0);
        lemma_whole_below(Width::Double, p, 1);
    } else {
        lemma_index_number(i);
        let x = stretch::index_number(i);
        let c = x.code as nat;
        let d = (c - 1) as nat;
        let u = rounding::units(Width::Double, c);
        let t = rounding::units(Width::Double, d);
        lemma_neighbours(c);
        assert(u * s <= t * one) by (nonlinear_arith)
            requires
                t * 0x10_0000_0000_0000 >= u * 0xf_ffff_ffff_ffff,
                s * 0x80_0000 <= one * 0x7f_ffff,
                u >= 0,
                t >= 0,
                one > 0,
                s > 0,
        ;
        laws::law_rounding_respects_values(Width::Double, u * s, one, d);
        laws::law_codes_keep_order(Width::Double, d, p.code as nat);
        lemma_whole_below(Width::Double, p, i);
    }
}

/// A finite number times one is itself.
proof fn lemma_times_one(x: Number)
    requires
        number::is_finite(Width::Single, x),
    ensures
        number::product(Width::Single, x, sample::one(false)) == x,
{
    lemma_one();
    let m = number::magnitude(Width::Single, x);
    lemma_pow2_pos(149);
    laws::law_rounding_respects_values(Width::Single, m * pow2(149), pow2(149), x.code as nat);
}

/// Blending by nothing gives the first sample.
pub proof fn law_blend_by_nothing(a: Sample, b: Sample)
    requires
        number::is_finite(Width::Single, a.number()),
        number::is_finite(Width::Single, b.number()),
    ensures
        ({
            let r = stretch::blended(a, b, number::zero(false));
            &&& number::is_finite(Width::Single, r)
            &&& number::value(Width::Single, r) == number::value(Width::Single, a.number())
            &&& a.number().code != 0 ==> r == a.number()
        }),
{
    let x = a.number();
    let y = b.number();
    let none = number::zero(false);
    lemma_one();
    lemma_pow2_pos(23);
    lemma_pow2_pos(149);
    assert(rounding::units(Width::Single, 0) == 0);
    let left = number::difference(Width::Single, sample::one(false), none);
    laws::law_rounding_keeps_values(Width::Single, 0x3f80_0000);
    assert(left == sample::one(false));
    lemma_times_one(x);
    let m = number::magnitude(Width::Single, y);
    assert(m * 0 == 0);
    laws::law_rounding_respects_values(Width::Single, 0, pow2(149), 0);
    let rest = number::product(Width::Single, y, none);
    assert(rest.code == 0);
    laws::law_rounding_keeps_values(Width::Single, x.code as nat);
    laws::law_codes_keep_order(Width::Single, 0, x.code as nat);
}

/// A position that is a whole number reads the sample of that number.
pub proof fn law_whole_positions_read_samples(samples: Seq<Sample>, k: nat)
    requires
        k < samples.len(),
        k < 0x20_0000_0000_0000,
        k < usize::MAX,
        forall|j: int|
            0 <= j < samples.len() ==> number::is_finite(
                Width::Single,
                (#[trigger] samples[j]).number(),
            ),
    ensures
        ({
            let r = stretch::read_at(samples, stretch::index_number(k));
            &&& r.len() == 1
            &&& number::is_finite(Width::Single, r[0].number())
            &&& number::value(Width::Single, r[0].number()) == number::value(
                Width::Single,
                samples[k as int].number(),
            )
        }),
{
    lemma2_to64();
    lemma2_to64_rest();
    lemma_pow2_pos(1074);
    lemma_pow2_pos(52);
    let p = stretch::index_number(k);
    laws::law_rounding_keeps_multiples(Width::Double, k, 1074);
    lemma_div_by_multiple(k as int, pow2(1074) as int);
    assert(stretch::as_index(p) == k);
    let past = number::difference(Width::Double, p, p);
    assert(past == number::zero(false));
    assert(rounding::units(Width::Double, 0) == 0);
    lemma_pow2_pos(925);
    laws::law_rounding_respects_values(Width::Single, 0, pow2(925), 0);
    assert(rounding::units(Width::Single, 0) == 0) by {
        lemma_pow2_pos(23);
    }
    assert(stretch::fraction_past(p, k) == number::zero(false));
    if k + 1 < samples.len() {
        law_blend_by_nothing(samples[k as int], samples[k as int + 1]);
        let r = stretch::blended(samples[k as int], samples[k as int + 1], number::zero(false));
        assert(Sample::of(r).number() == r);
    }
}

/// Audio played at a speed starts with the first sample.
pub proof fn law_sped_starts_with_first(samples: Seq<Sample>, speed: Number)
    requires
        samples.len() > 0,
        forall|j: int|
            0 <= j < samples.len() ==> number::is_finite(
                Width::Single,
                (#[trigger] samples[j]).number(),
            ),
        number::is_finite(Width::Single, speed),
        !speed.negative,
    ensures
        ({
            let r = stretch::sped(samples, speed);
            &&& r.len() > 0
            &&& number::value(Width::Single, r[0].number()) == number::value(
                Width::Single,
                samples[0].number(),
            )
        }),
{
    let count = stretch::sped_length(samples.len(), speed);
    let position = |i: nat| stretch::sped_position(speed, i);
    if count > 0 {
        lemma_pow2_pos(52);
        lemma_pow2_pos(1074);
        lemma_widened(speed);
        assert(rounding::units(Width::Double, 0) == 0);
        assert(0 * pow2(1074) == 0);
        laws::law_rounding_respects_values(Width::Double, 0, 1, 0);
        let s = number::magnitude(Width::Double, number::widened(speed));
        assert(0 * s == 0);
        laws::law_rounding_respects_values(Width::Double, 0, pow2(1074), 0);
        assert(position(0) == number::zero(false));
        assert(stretch::index_number(0) == number::zero(false));
        law_whole_positions_read_samples(samples, 0);
        lemma_first_read(samples, position, count);
    }
}

/// The first read comes first.
proof fn lemma_first_read(samples: Seq<Sample>, position: spec_fn(nat) -> Number, count: nat)
    requires
        count > 0,
        stretch::read_at(samples, position(0)).len() == 1,
    ensures
        stretch::read_along(samples, position, count).len() > 0,
        stretch::read_along(samples, position, count)[0] == stretch::read_at(
            samples,
            position(0),
        )[0],
    decreases count,
{
    if count > 1 {
        lemma_first_read(samples, position, (count - 1) as nat);
    } else {
        assert(stretch::read_along(samples, position, 0).len() == 0);
    }
}

/// A blend with what has no value has none.
pub proof fn law_blend_with_no_value(a: Sample, b: Sample, fraction: Number)
    requires
        number::is_nan(Width::Single, a.number()) || number::is_nan(Width::Single, b.number()),
    ensures
        number::is_nan(Width::Single, stretch::blended(a, b, fraction)),
{
}

/// Part of an infinite sample is infinite, with its sign; no part of one has no
/// value.
pub proof fn law_blend_with_infinity(a: Sample, b: Sample, fraction: Number)
    requires
        !fraction.negative,
        fraction.code < 0x3f80_0000,
    ensures
        number::is_infinite(Width::Single, a.number()) && number::is_finite(
            Width::Single,
            b.number(),
        ) ==> stretch::blended(a, b, fraction) == a.number(),
        number::is_infinite(Width::Single, b.number()) && number::is_finite(
            Width::Single,
            a.number(),
        ) && fraction.code > 0 ==> stretch::blended(a, b, fraction) == b.number(),
        number::is_infinite(Width::Single, b.number()) && fraction.code == 0 ==> number::is_nan(
            Width::Single,
            stretch::blended(a, b, fraction),
        ),
{
    let one = sample::one(false);
    let (x, y) = (a.number(), b.number());
    let left = number::difference(Width::Single, one, fraction);
    laws::law_codes_keep_order(Width::Single, fraction.code as nat, 0x3f80_0000);
    let s = number::value(Width::Single, one) - number::value(Width::Single, fraction);
    assert(s > 0);
    assert(rounding::units(Width::Single, 1) == 1 && rounding::units(Width::Single, 0) == 0) by {
        lemma2_to64();
    }
    laws::law_rounding_respects_values(Width::Single, s as nat, 1, 1);
    laws::law_rounding_respects_values(Width::Single, s as nat, 1, 0x3f80_0000);
    assert(!left.negative && 0 < left.code <= 0x3f80_0000);
    if number::is_finite(Width::Single, x) {
        lemma_part(x, left);
    }
    if number::is_finite(Width::Single, y) {
        lemma_part(y, fraction);
    }
}

/// A part of a finite number is finite.
proof fn lemma_part(x: Number, part: Number)
    requires
        number::is_finite(Width::Single, x),
        part.code <= 0x3f80_0000,
    ensures
        number::is_finite(Width::Single, number::product(Width::Single, x, part)),
{
    let one = pow2(149);
    lemma_pow2_pos(149);
    arithmetic::law_one();
    laws::law_codes_keep_order(Width::Single, part.code as nat, 0x3f80_0000);
    let m = number::magnitude(Width::Single, x);
    let p = number::magnitude(Width::Single, part);
    assert(m * p <= m * one) by (nonlinear_arith)
        requires
            p <= one,
    ;
    laws::law_rounding_respects_values(Width::Single, m * p, one, x.code as nat);
}

} // verus!
