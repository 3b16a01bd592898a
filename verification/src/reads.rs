//! Laws of the positions that are read: none of them is skipped, and those of a
//! whole speed pick samples out.

use crate::laws;
use crate::number;
use crate::number::Number;
use crate::rate;
use crate::rounding;
use crate::rounding::Width;
use crate::sample::Sample;
use crate::speed;
use crate::stretch;
use vstd::arithmetic::div_mod::*;
use vstd::arithmetic::power2::*;
use vstd::prelude::*;

verus! {

/// A short length is its own number; the next number below it is at most one
/// part in `2^52` smaller.
pub(crate) proof fn lemma_exact_index(k: nat)
    requires
        0 < k < 0x20_0000_0000_0000,
    ensures
        ({
            let x = stretch::index_number(k);
            let below = rounding::units(Width::Double, (x.code - 1) as nat);
            &&& !x.negative
            &&& 0 < x.code < rounding::infinity(Width::Double)
            &&& number::magnitude(Width::Double, x) == k * pow2(1074)
            &&& below < k * pow2(1074)
            &&& below * 0x10_0000_0000_0000 >= (k * pow2(1074)) * 0xf_ffff_ffff_ffff
        }),
{
    lemma2_to64();
    lemma2_to64_rest();
    laws::law_rounding_keeps_multiples(Width::Double, k, 1074);
    speed::lemma_index_number(k);
    let x = stretch::index_number(k);
    speed::lemma_neighbours(x.code as nat);
}

/// A magnitude that does not exceed the number next below `k` has a whole part
/// below `k`.
pub(crate) proof fn lemma_rounds_below(a: nat, b: nat, k: nat)
    requires
        0 < k < 0x20_0000_0000_0000,
        b > 0,
        a <= rounding::units(Width::Double, (stretch::index_number(k).code - 1) as nat) * b,
    ensures
        ({
            let x = number::rounded(Width::Double, false, a, b);
            &&& number::is_finite(Width::Double, x)
            &&& number::whole_part(Width::Double, x) < k
        }),
{
    lemma_exact_index(k);
    let d = (stretch::index_number(k).code - 1) as nat;
    laws::law_rounding_respects_values(Width::Double, a, b, d);
    let x = number::rounded(Width::Double, false, a, b);
    laws::law_codes_keep_order(Width::Double, d, x.code as nat);
    speed::lemma_whole_below(Width::Double, x, k);
}

/// If `count` steps exceed the whole by less than one part in `2^52`, and
/// there are not too many of them, then one step less stays below the whole by
/// more than that.
proof fn lemma_one_less(i: int, count: int, step: int, whole: int)
    requires
        0 <= i < count <= 0x8_0000_0000_0000,
        step >= 0,
        whole >= 0,
        (count * step) * 0xf_ffff_ffff_ffff <= whole * 0x10_0000_0000_0000,
    ensures
        (i * step) * 0x10_0000_0000_0000 <= whole * 0xf_ffff_ffff_ffff,
{
    let a = count * step;
    assert(i * 0x8_0000_0000_0000 <= count * 0x7_ffff_ffff_ffff);
    assert((i * step) * 0x8_0000_0000_0000 <= a * 0x7_ffff_ffff_ffff) by (nonlinear_arith)
        requires
            i * 0x8_0000_0000_0000 <= count * 0x7_ffff_ffff_ffff,
            step >= 0,
            a == count * step,
    ;
    assert((i * step) * 0x10_0000_0000_0000 <= a * 0xf_ffff_ffff_fffe);
    assert(a * 0xf_ffff_ffff_fffe <= whole * 0xf_ffff_ffff_ffff) by {
        assert(0x10_0000_0000_0000 * 0xf_ffff_ffff_fffe <= 0xf_ffff_ffff_ffff * 0xf_ffff_ffff_ffff);
        assert((a * 0xf_ffff_ffff_fffe) * 0xf_ffff_ffff_ffff <= (whole * 0xf_ffff_ffff_ffff)
            * 0xf_ffff_ffff_ffff);
    }
}

/// Where every read gives one sample, the samples are those reads in order.
pub(crate) proof fn lemma_reads_in_order(
    samples: Seq<Sample>,
    position: spec_fn(nat) -> Number,
    count: nat,
    i: nat,
)
    requires
        i < count,
        forall|j: nat| j < count ==> stretch::read_at(samples, #[trigger] position(j)).len() == 1,
    ensures
        stretch::read_along(samples, position, count).len() == count,
        stretch::read_along(samples, position, count)[i as int] == stretch::read_at(
            samples,
            position(i),
        )[0],
    decreases count,
{
    let before = (count - 1) as nat;
    assert(stretch::read_at(samples, position(before)).len() == 1);
    if before == 0 {
        assert(stretch::read_along(samples, position, 0).len() == 0);
    } else if i < before {
        lemma_reads_in_order(samples, position, before, i);
    } else {
        lemma_reads_in_order(samples, position, before, 0);
    }
}

/// The positions of a speed adjustment lie within the samples, and so many of
/// them hardly exceed the samples.
pub(crate) proof fn lemma_sped_within(n: nat, speed: Number)
    requires
        0 < n < 0x20_0000_0000_0000,
        0 < stretch::sped_length(n, speed) <= 0x8_0000_0000_0000,
    ensures
        number::is_finite(Width::Single, speed),
        !speed.negative,
        (stretch::sped_length(n, speed) * number::magnitude(
            Width::Double,
            number::widened(speed),
        )) * 0xf_ffff_ffff_ffff <= (n * pow2(1074)) * 0x10_0000_0000_0000,
        forall|i: nat|
            i < stretch::sped_length(n, speed) ==> stretch::as_index(
                #[trigger] stretch::sped_position(speed, i),
            ) < n,
{
    let count = stretch::sped_length(n, speed);
    let one = pow2(1074);
    lemma_pow2_pos(1074);
    lemma_pow2_pos(52);
    lemma_exact_index(n);
    lemma_exact_index(count);
    let x = stretch::index_number(n);
    let wide = number::widened(speed);
    let q = number::quotient(Width::Double, x, wide);
    assert(rounding::units(Width::Double, 0) == 0);
    if number::is_infinite(Width::Single, speed) {
        assert(number::whole_part(Width::Double, q) == 0) by {
            lemma_div_of0(one as int);
        }
    }
    assert(number::is_finite(Width::Single, speed) && !speed.negative) by {
        if number::is_finite(Width::Single, speed) {
            speed::lemma_widened(speed);
        }
    }
    speed::lemma_widened(speed);
    let s = number::magnitude(Width::Double, wide);
    laws::law_codes_keep_order(Width::Double, 0, wide.code as nat);
    // `count` steps of the speed hardly exceed the length
    let below = rounding::units(Width::Double, (stretch::index_number(count).code - 1) as nat);
    let whole = n * one;
    assert((count * s) * 0xf_ffff_ffff_ffff <= whole * 0x10_0000_0000_0000) by {
        if s > 0 {
            let a = (n * one) * one;
            if a <= below * s {
                lemma_rounds_below(a, s, count);
            }
            assert((count * s) * 0xf_ffff_ffff_ffff <= (n * one) * 0x10_0000_0000_0000)
                by (nonlinear_arith)
                requires
                    below * s < (n * one) * one,
                    below * 0x10_0000_0000_0000 >= (count * one) * 0xf_ffff_ffff_ffff,
                    one > 0,
                    s > 0,
            ;
        } else {
            assert(count * 0 == 0);
        }
    }
    // so each position lies below it
    assert forall|i: nat| i < count implies stretch::as_index(
        #[trigger] stretch::sped_position(speed, i),
    ) < n by {
        lemma_one_less(i as int, count as int, s as int, whole as int);
        let last = rounding::units(Width::Double, (x.code - 1) as nat);
        lemma2_to64();
        lemma2_to64_rest();
        laws::law_rounding_keeps_multiples(Width::Double, i, 1074);
        let a = (i * one) * s;
        assert(a <= last * one) by (nonlinear_arith)
            requires
                a == (i * one) * s,
                (i * s) * 0x10_0000_0000_0000 <= whole * 0xf_ffff_ffff_ffff,
                last * 0x10_0000_0000_0000 >= whole * 0xf_ffff_ffff_ffff,
                one > 0,
        ;
        lemma_rounds_below(a, one, n);
    }
}

/// No position of a speed adjustment lies past the end: there is one sample for
/// each. Lengths are those whose numbers leave room for the rounding.
pub proof fn law_no_sped_position_is_skipped(samples: Seq<Sample>, speed: Number)
    requires
        0 < samples.len() < 0x20_0000_0000_0000,
        !stretch::near_one(speed),
        0 < stretch::sped_length(samples.len(), speed) <= 0x8_0000_0000_0000,
    ensures
        stretch::sped(samples, speed).len() == stretch::sped_length(samples.len(), speed),
{
    let count = stretch::sped_length(samples.len(), speed);
    lemma_sped_within(samples.len(), speed);
    let position = |i: nat| stretch::sped_position(speed, i);
    speed::law_reads_each_within(samples, position, count, count);
    speed::law_reads_at_most_once(samples, position, count);
}

/// The positions of a change of rate lie within the samples, and so many of them
/// hardly exceed the samples.
pub(crate) proof fn lemma_resampled_within(n: nat, from: u32, to: u32)
    requires
        0 < n < 0x20_0000_0000_0000,
        0 < from,
        from != to,
        stretch::resampled_length(n, from, to) <= 0x8_0000_0000_0000,
    ensures
        stretch::resampled_length(n, from, to) > 0 ==> {
            let r = number::magnitude(Width::Double, stretch::rate_ratio(from, to));
            &&& r > 0
            &&& (stretch::resampled_length(n, from, to) * pow2(1074)) * 0xf_ffff_ffff_ffff <= (n
                * r) * 0x10_0000_0000_0000
        },
        forall|i: nat|
            i < stretch::resampled_length(n, from, to) ==> stretch::as_index(
                #[trigger] stretch::resampled_position(from, to, i),
            ) < n,
{
    let count = stretch::resampled_length(n, from, to);
    if count > 0 {
        let one = pow2(1074);
        lemma_pow2_pos(1074);
        lemma_pow2_pos(52);
        lemma_exact_index(n);
        lemma_exact_index(count);
        rate::lemma_ratio(from, to);
        let x = stretch::index_number(n);
        let ratio = stretch::rate_ratio(from, to);
        let r = number::magnitude(Width::Double, ratio);
        assert(rounding::units(Width::Double, 0) == 0);
        laws::law_codes_keep_order(Width::Double, 0, ratio.code as nat);
        let below = rounding::units(Width::Double, (stretch::index_number(count).code - 1) as nat);
        let a = (n * one) * r;
        if a <= below * one {
            lemma_rounds_below(a, one, count);
        }
        let whole = n * r;
        assert((count * one) * 0xf_ffff_ffff_ffff <= whole * 0x10_0000_0000_0000) by (nonlinear_arith)
            requires
                below * one < (n * one) * r,
                below * 0x10_0000_0000_0000 >= (count * one) * 0xf_ffff_ffff_ffff,
                one > 0,
                whole == n * r,
        ;
        assert(r > 0) by (nonlinear_arith)
            requires
                below * one < (n * one) * r,
                below >= 0,
                one > 0,
        ;
        assert forall|i: nat| i < count implies stretch::as_index(
            #[trigger] stretch::resampled_position(from, to, i),
        ) < n by {
            lemma_one_less(i as int, count as int, one as int, whole as int);
            let last = rounding::units(Width::Double, (x.code - 1) as nat);
            lemma2_to64();
            lemma2_to64_rest();
            laws::law_rounding_keeps_multiples(Width::Double, i, 1074);
            let b = (i * one) * one;
            assert(b <= last * r) by (nonlinear_arith)
                requires
                    b == (i * one) * one,
                    (i * one) * 0x10_0000_0000_0000 <= (n * r) * 0xf_ffff_ffff_ffff,
                    last * 0x10_0000_0000_0000 >= (n * one) * 0xf_ffff_ffff_ffff,
                    one > 0,
                    r > 0,
            ;
            lemma_rounds_below(b, r, n);
        }
    }
}

/// No position of a change of rate lies past the end: there is one sample for
/// each. Lengths are those whose numbers leave room for the rounding.
pub proof fn law_no_resampled_position_is_skipped(samples: Seq<Sample>, from: u32, to: u32)
    requires
        0 < samples.len() < 0x20_0000_0000_0000,
        0 < from,
        from != to,
        stretch::resampled_length(samples.len(), from, to) <= 0x8_0000_0000_0000,
    ensures
        stretch::resampled(samples, from, to).len() == stretch::resampled_length(
            samples.len(),
            from,
            to,
        ),
{
    let count = stretch::resampled_length(samples.len(), from, to);
    let position = |i: nat| stretch::resampled_position(from, to, i);
    lemma_resampled_within(samples.len(), from, to);
    speed::law_reads_each_within(samples, position, count, count);
    speed::law_reads_at_most_once(samples, position, count);
}

/// A whole speed is its own number, and lies above one.
proof fn lemma_whole_speed(m: nat)
    requires
        2 <= m <= 0x100_0000,
    ensures
        ({
            let speed = number::whole(Width::Single, false, m);
            &&& number::is_finite(Width::Single, speed)
            &&& speed.code > 0x3f80_0000
            &&& !number::widened(speed).negative
            &&& 0 < number::widened(speed).code < rounding::infinity(Width::Double)
            &&& number::magnitude(Width::Double, number::widened(speed)) == m * pow2(1074)
        }),
{
    let speed = number::whole(Width::Single, false, m);
    lemma2_to64();
    lemma2_to64_rest();
    lemma_pow2_pos(149);
    lemma_pow2_pos(1074);
    lemma_pow2_pos(52);
    lemma_pow2_adds(24, 149);
    lemma_pow2_adds(149, 925);
    lemma_pow2_adds(23, 126);
    if m < 0x100_0000 {
        laws::law_rounding_keeps_multiples(Width::Single, m, 149);
    } else {
        laws::law_rounding_keeps_multiples(Width::Single, 1, 173);
        assert(1 * pow2(173) == m * pow2(149));
    }
    assert(number::magnitude(Width::Single, speed) == m * pow2(149));
    assert(0x3f80_0000int / 0x80_0000 == 127);
    assert(0x3f80_0000int % 0x80_0000 == 0);
    assert(rounding::units(Width::Single, 0x3f80_0000) == pow2(149));
    assert(m * pow2(149) > pow2(149)) by (nonlinear_arith)
        requires
            m >= 2,
            pow2(149) > 0,
    ;
    laws::law_codes_keep_order(Width::Single, 0x3f80_0000, speed.code as nat);
    speed::lemma_widened(speed);
    let wide = number::widened(speed);
    assert((m * pow2(149)) * pow2(925) == m * pow2(1074)) by (nonlinear_arith)
        requires
            pow2(1074) == pow2(149) * pow2(925),
    ;
    assert(m * pow2(1074) > 0) by (nonlinear_arith)
        requires
            m >= 2,
            pow2(1074) > 0,
    ;
    assert(rounding::units(Width::Double, 0) == 0);
    laws::law_codes_keep_order(Width::Double, 0, wide.code as nat);
}

/// A whole speed asks for the whole part of the quotient of positions.
proof fn lemma_whole_speed_length(n: nat, m: nat)
    requires
        2 <= m <= 0x100_0000,
        m <= n < 0x10_0000_0000_0000,
        n <= usize::MAX,
    ensures
        stretch::sped_length(n, number::whole(Width::Single, false, m)) == n / m,
{
    let speed = number::whole(Width::Single, false, m);
    let k = n / m;
    lemma_whole_speed(m);
    lemma_fundamental_div_mod(n as int, m as int);
    lemma_div_is_ordered(m as int, n as int, m as int);
    lemma_div_by_self(m as int);
    assert(k * m <= n < (k + 1) * m && k < n) by (nonlinear_arith)
        requires
            n == m * k + n % m,
            0 <= n % m < m,
            k >= 1,
            m >= 2,
    ;
    let one = pow2(1074);
    lemma_pow2_pos(1074);
    lemma_exact_index(n);
    lemma_exact_index(k);
    lemma_exact_index(k + 1);
    let x = stretch::index_number(n);
    let wide = number::widened(speed);
    let s = m * one;
    let a = (n * one) * one;
    let q = number::quotient(Width::Double, x, wide);
    // no less than `k`
    let c = stretch::index_number(k).code as nat;
    assert((k * one) * s <= a) by (nonlinear_arith)
        requires
            k * m <= n,
            s == m * one,
            a == (n * one) * one,
            one > 0,
    ;
    assert(s > 0) by (nonlinear_arith)
        requires
            s == m * one,
            m >= 2,
            one > 0,
    ;
    laws::law_rounding_respects_values(Width::Double, a, s, c);
    laws::law_codes_keep_order(Width::Double, q.code as nat, c);
    speed::lemma_whole_above(Width::Double, q, k);
    // less than `k + 1`
    let below = rounding::units(Width::Double, (stretch::index_number(k + 1).code - 1) as nat);
    assert(n * 0x10_0000_0000_0000 <= ((k + 1) * m) * 0xf_ffff_ffff_ffff);
    assert(a <= below * s) by (nonlinear_arith)
        requires
            n * 0x10_0000_0000_0000 <= ((k + 1) * m) * 0xf_ffff_ffff_ffff,
            below * 0x10_0000_0000_0000 >= ((k + 1) * one) * 0xf_ffff_ffff_ffff,
            s == m * one,
            a == (n * one) * one,
            one > 0,
            m > 0,
    ;
    lemma_rounds_below(a, s, k + 1);
}

/// A whole speed `m` picks every `m`th sample out, the first included.
pub proof fn law_whole_speed_picks_samples(samples: Seq<Sample>, m: nat, i: nat)
    requires
        2 <= m <= 0x100_0000,
        m <= samples.len() < 0x10_0000_0000_0000,
        samples.len() <= usize::MAX,
        forall|j: int|
            0 <= j < samples.len() ==> number::is_finite(
                Width::Single,
                (#[trigger] samples[j]).number(),
            ),
        i < samples.len() / m,
    ensures
        ({
            let r = stretch::sped(samples, number::whole(Width::Single, false, m));
            &&& r.len() == samples.len() / m
            &&& i * m < samples.len()
            &&& number::is_finite(Width::Single, r[i as int].number())
            &&& number::value(Width::Single, r[i as int].number()) == number::value(
                Width::Single,
                samples[(i * m) as int].number(),
            )
        }),
{
    let speed = number::whole(Width::Single, false, m);
    let n = samples.len();
    let count = n / m;
    lemma_whole_speed(m);
    speed::lemma_fast(speed);
    lemma_whole_speed_length(n, m);
    let position = |j: nat| stretch::sped_position(speed, j);
    assert forall|j: nat| j < count implies ({
        let r = stretch::read_at(samples, #[trigger] position(j));
        &&& j * m < n
        &&& position(j) == stretch::index_number(j * m)
        &&& r.len() == 1
        &&& number::is_finite(Width::Single, r[0].number())
        &&& number::value(Width::Single, r[0].number()) == number::value(
            Width::Single,
            samples[(j * m) as int].number(),
        )
    }) by {
        lemma_fundamental_div_mod(n as int, m as int);
        assert(j * m < n && j <= j * m) by (nonlinear_arith)
            requires
                n == m * count + n % m,
                n % m >= 0,
                j < count,
                m >= 2,
        ;
        lemma_whole_position(m, j);
        speed::law_whole_positions_read_samples(samples, j * m);
    }
    lemma_reads_in_order(samples, position, count, i);
    assert(position(i) == stretch::index_number(i * m));
}

/// The positions of a whole speed are whole.
proof fn lemma_whole_position(m: nat, j: nat)
    requires
        2 <= m <= 0x100_0000,
        j <= j * m < 0x10_0000_0000_0000,
    ensures
        stretch::sped_position(number::whole(Width::Single, false, m), j) == stretch::index_number(
            j * m,
        ),
{
    let one = pow2(1074);
    lemma_pow2_pos(1074);
    lemma2_to64();
    lemma2_to64_rest();
    lemma_whole_speed(m);
    laws::law_rounding_keeps_multiples(Width::Double, j, 1074);
    laws::law_rounding_keeps_multiples(Width::Double, j * m, 1074);
    let c = rounding::nearest(Width::Double, (j * m) * one, 1);
    let a = (j * one) * (m * one);
    assert(a == ((j * m) * one) * one) by (nonlinear_arith)
        requires
            a == (j * one) * (m * one),
    ;
    laws::law_rounding_respects_values(Width::Double, a, one, c);
}

} // verus!
