//! Laws of the change of sample rate: a lower rate shortens the row of samples,
//! a higher one does not.

use crate::laws;
use crate::number;
use crate::rounding;
use crate::rounding::Width;
use crate::sample::Sample;
use crate::speed;
use crate::stretch;
use vstd::arithmetic::power2::*;
use vstd::prelude::*;

verus! {

/// A rate is its own number.
pub(crate) proof fn lemma_rate(rate: u32)
    ensures
        ({
            let x = stretch::index_number(rate as nat);
            &&& !x.negative
            &&& number::is_finite(Width::Double, x)
            &&& number::magnitude(Width::Double, x) == rate * pow2(1074)
            &&& x.code == 0 <==> rate == 0
        }),
{
    lemma2_to64();
    lemma2_to64_rest();
    lemma_pow2_pos(1074);
    lemma_pow2_pos(52);
    laws::law_rounding_keeps_multiples(Width::Double, rate as nat, 1074);
    assert(rounding::units(Width::Double, 0) == 0);
    let x = stretch::index_number(rate as nat);
    laws::law_codes_keep_order(Width::Double, 0, x.code as nat);
    assert(rate * pow2(1074) == 0 <==> rate == 0) by (nonlinear_arith)
        requires
            pow2(1074) > 0,
    ;
}

/// The ratio to a lower rate is by at least one part in `2^33` below one, that
/// to a higher rate by as much above.
pub(crate) proof fn lemma_ratio(from: u32, to: u32)
    requires
        0 < from,
        from != to,
    ensures
        ({
            let ratio = stretch::rate_ratio(from, to);
            let r = number::magnitude(Width::Double, ratio);
            &&& !ratio.negative
            &&& number::is_finite(Width::Double, ratio)
            &&& to < from ==> r * 0x2_0000_0000 <= pow2(1074) * 0x1_ffff_ffff
            &&& to > from ==> r * 0x2_0000_0000 >= pow2(1074) * 0x2_0000_0001
        }),
{
    lemma2_to64();
    lemma2_to64_rest();
    lemma_pow2_pos(1074);
    lemma_pow2_pos(1041);
    lemma_pow2_adds(33, 1041);
    lemma_rate(from);
    lemma_rate(to);
    let one = pow2(1074) as int;
    let part = pow2(1041) as int;
    assert(one == 0x2_0000_0000 * part);
    let a = ((to * one) * one) as nat;
    let b = (from * one) as nat;
    assert(b > 0) by (nonlinear_arith)
        requires
            from > 0,
            one > 0,
            b == from * one,
    ;
    // the ratio is at most `2^32`
    laws::law_rounding_keeps_multiples(Width::Double, 0x1_0000_0000, 1074);
    let most = rounding::nearest(Width::Double, 0x1_0000_0000 * pow2(1074), 1);
    assert(a <= (0x1_0000_0000 * one) * b) by (nonlinear_arith)
        requires
            a == (to * one) * one,
            b == from * one,
            0 <= to <= 0xffff_ffff,
            from >= 1,
            one > 0,
    ;
    laws::law_rounding_respects_values(Width::Double, a, b, most);
    let s: nat = if to < from {
        0x1_ffff_ffff
    } else {
        0x2_0000_0001
    };
    laws::law_rounding_keeps_multiples(Width::Double, s, 1041);
    let bound = rounding::nearest(Width::Double, s * pow2(1041), 1);
    if to < from {
        assert(a <= (s * part) * b) by (nonlinear_arith)
            requires
                a == (to * one) * one,
                b == from * one,
                s == 0x1_ffff_ffff,
                one == 0x2_0000_0000 * part,
                to + 1 <= from <= 0xffff_ffff,
                part > 0,
        ;
    } else {
        assert(a >= (s * part) * b) by (nonlinear_arith)
            requires
                a == (to * one) * one,
                b == from * one,
                s == 0x2_0000_0001,
                one == 0x2_0000_0000 * part,
                from + 1 <= to,
                from <= 0xffff_ffff,
                part > 0,
        ;
    }
    laws::law_rounding_respects_values(Width::Double, a, b, bound);
    let ratio = stretch::rate_ratio(from, to);
    let c = ratio.code as nat;
    assert(c == rounding::nearest(Width::Double, a, b));
    laws::law_codes_keep_order(Width::Double, bound, c);
    laws::law_codes_keep_order(Width::Double, c, bound);
}

/// A lower sample rate leaves fewer samples.
pub proof fn law_lower_rate_is_shorter(samples: Seq<Sample>, from: u32, to: u32)
    requires
        0 < samples.len() <= usize::MAX,
        to < from,
    ensures
        stretch::resampled(samples, from, to).len() < samples.len(),
{
    let n = samples.len();
    lemma_ratio(from, to);
    speed::lemma_index_number(n);
    let one = pow2(1074);
    lemma_pow2_pos(1074);
    let ratio = stretch::rate_ratio(from, to);
    let r = number::magnitude(Width::Double, ratio);
    let x = stretch::index_number(n);
    let c = x.code as nat;
    let d = (c - 1) as nat;
    let u = rounding::units(Width::Double, c);
    let t = rounding::units(Width::Double, d);
    speed::lemma_neighbours(c);
    assert(u * r <= t * one) by (nonlinear_arith)
        requires
            t * 0x10_0000_0000_0000 >= u * 0xf_ffff_ffff_ffff,
            r * 0x2_0000_0000 <= one * 0x1_ffff_ffff,
            u >= 0,
            t >= 0,
            one > 0,
            r >= 0,
    ;
    laws::law_rounding_respects_values(Width::Double, u * r, one, d);
    let p = number::product(Width::Double, x, ratio);
    laws::law_codes_keep_order(Width::Double, d, p.code as nat);
    speed::lemma_whole_below(Width::Double, p, n);
    let count = stretch::resampled_length(n, from, to);
    assert(count < n);
    speed::law_reads_at_most_once(
        samples,
        |i: nat| stretch::resampled_position(from, to, i),
        count,
    );
}

/// At a higher rate, a position does not run ahead of its number.
proof fn lemma_position_within(from: u32, to: u32, i: nat)
    requires
        0 < from < to,
        i <= u64::MAX,
    ensures
        stretch::as_index(stretch::resampled_position(from, to, i)) <= i,
{
    lemma_ratio(from, to);
    let one = pow2(1074);
    lemma_pow2_pos(1074);
    lemma_pow2_pos(52);
    let ratio = stretch::rate_ratio(from, to);
    let r = number::magnitude(Width::Double, ratio);
    assert(rounding::units(Width::Double, 0) == 0);
    assert(r > 0) by (nonlinear_arith)
        requires
            r * 0x2_0000_0000 >= one * 0x2_0000_0001,
            one > 0,
    ;
    let p = stretch::resampled_position(from, to, i);
    if i == 0 {
        assert(0 * one == 0);
        laws::law_rounding_respects_values(Width::Double, 0, 1, 0);
        laws::law_rounding_respects_values(Width::Double, 0, r, 0);
        speed::lemma_whole_below(Width::Double, p, 1);
    } else {
        speed::lemma_index_number(i);
        let x = stretch::index_number(i);
        let c = x.code as nat;
        let d = (c - 1) as nat;
        let u = rounding::units(Width::Double, c);
        let t = rounding::units(Width::Double, d);
        speed::lemma_neighbours(c);
        assert(u * one <= t * r) by (nonlinear_arith)
            requires
                t * 0x10_0000_0000_0000 >= u * 0xf_ffff_ffff_ffff,
                r * 0x2_0000_0000 >= one * 0x2_0000_0001,
                u >= 0,
                t >= 0,
                one > 0,
                r > 0,
        ;
        laws::law_rounding_respects_values(Width::Double, u * one, r, d);
        laws::law_codes_keep_order(Width::Double, d, p.code as nat);
        speed::lemma_whole_below(Width::Double, p, i);
    }
}

/// A higher sample rate does not leave fewer samples.
pub proof fn law_higher_rate_is_not_shorter(samples: Seq<Sample>, from: u32, to: u32)
    requires
        samples.len() <= usize::MAX,
        0 < from < to,
    ensures
        stretch::resampled(samples, from, to).len() >= samples.len(),
{
    let n = samples.len();
    if n > 0 {
        lemma_ratio(from, to);
        speed::lemma_index_number(n);
        let one = pow2(1074);
        lemma_pow2_pos(1074);
        let ratio = stretch::rate_ratio(from, to);
        let r = number::magnitude(Width::Double, ratio);
        // there are at least `n` positions
        let x = stretch::index_number(n);
        let c = x.code as nat;
        let u = rounding::units(Width::Double, c);
        let v = rounding::units(Width::Double, c + 1);
        speed::lemma_neighbours(c);
        assert(v * one <= u * r) by (nonlinear_arith)
            requires
                v * 0x10_0000_0000_0000 <= u * 0x10_0000_0000_0001,
                r * 0x2_0000_0000 >= one * 0x2_0000_0001,
                u >= 0,
                v >= 0,
                one > 0,
                r >= 0,
        ;
        laws::law_rounding_respects_values(Width::Double, u * r, one, c + 1);
        let p = number::product(Width::Double, x, ratio);
        laws::law_codes_keep_order(Width::Double, p.code as nat, c + 1);
        speed::lemma_whole_above(Width::Double, p, n);
        let count = stretch::resampled_length(n, from, to);
        assert(count >= n);
        // the first `n` of them lie within the samples
        let position = |i: nat| stretch::resampled_position(from, to, i);
        assert forall|i: nat| i < n implies stretch::as_index(#[trigger] position(i)) < n by {
            lemma_position_within(from, to, i);
        }
        speed::law_reads_each_within(samples, position, n, count);
    }
}

} // verus!
