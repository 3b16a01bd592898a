//! Laws of the arithmetic: each operation gives the number nearest to the exact
//! result.

use crate::laws;
use crate::number;
use crate::number::Number;
use crate::rounding;
use crate::rounding::Width;
use crate::speed;
use vstd::arithmetic::div_mod::*;
use vstd::arithmetic::power2::*;
use vstd::prelude::*;

verus! {

/// A code stands for the value nearest to `a / b` units: no value is nearer, of
/// two that are equally near it is the even one, and infinity starts half a step
/// past the largest value.
pub open spec fn stands_for(w: Width, code: nat, a: nat, b: nat) -> bool {
    if code < rounding::infinity(w) {
        forall|c: nat|
            {
                let off = laws::distance(a as int, (rounding::units(w, code) * b) as int);
                let other = laws::distance(a as int, (#[trigger] rounding::units(w, c) * b) as int);
                off <= other && (off == other && c != code ==> code % 2 == 0)
            }
    } else {
        &&& code == rounding::infinity(w)
        &&& 2 * a >= (rounding::units(w, (code - 1) as nat) + rounding::units(w, code)) * b
    }
}

/// Two values that are equally near to a magnitude are neighbours.
proof fn lemma_equally_near(w: Width, a: nat, b: nat, c: nat, d: nat)
    requires
        b > 0,
        c < d,
        rounding::nearest(w, a, b) < rounding::infinity(w),
        rounding::nearest(w, a, b) == c || rounding::nearest(w, a, b) == d,
        laws::distance(a as int, (rounding::units(w, c) * b) as int) == laws::distance(
            a as int,
            (rounding::units(w, d) * b) as int,
        ),
    ensures
        d == c + 1,
        rounding::units(w, c) * b < a < rounding::units(w, d) * b,
        2 * a == (rounding::units(w, c) + rounding::units(w, d)) * b,
{
    let (x, y) = (rounding::units(w, c) as int, rounding::units(w, d) as int);
    laws::law_codes_keep_order(w, c, d);
    assert(x * b < y * b && (x + y) * b == x * b + y * b) by (nonlinear_arith)
        requires
            x < y,
            b > 0,
    ;
    if d > c + 1 {
        let z = rounding::units(w, c + 1) as int;
        laws::law_codes_keep_order(w, c, c + 1);
        laws::law_codes_keep_order(w, c + 1, d);
        assert(x * b < z * b < y * b) by (nonlinear_arith)
            requires
                x < z < y,
                b > 0,
        ;
        laws::law_rounding_is_nearest(w, a, b, c + 1);
    }
}

/// Rounding gives what stands for a magnitude.
pub proof fn law_rounding_stands_for(w: Width, a: nat, b: nat)
    requires
        b > 0,
    ensures
        stands_for(w, rounding::nearest(w, a, b), a, b),
{
    let code = rounding::nearest(w, a, b);
    let top = rounding::infinity(w);
    laws::law_rounding_respects_values(w, a, b, 0);
    if code < top {
        let off = laws::distance(a as int, (rounding::units(w, code) * b) as int);
        assert forall|c: nat| #![trigger rounding::units(w, c)]
            ({
                let other = laws::distance(a as int, (rounding::units(w, c) * b) as int);
                off <= other && (off == other && c != code ==> code % 2 == 0)
            }) by {
            laws::law_rounding_is_nearest(w, a, b, c);
            let other = laws::distance(a as int, (rounding::units(w, c) * b) as int);
            if off == other && c < code {
                lemma_equally_near(w, a, b, c, code);
                laws::law_rounding_between(w, a, b, c);
            } else if off == other && c > code {
                lemma_equally_near(w, a, b, code, c);
                laws::law_rounding_between(w, a, b, code);
            }
        }
    } else {
        let last = (top - 1) as nat;
        let (x, y) = (rounding::units(w, last), rounding::units(w, top));
        if 2 * a < (x + y) * b {
            laws::law_codes_keep_order(w, last, top);
            assert(a < y * b) by (nonlinear_arith)
                requires
                    2 * a < (x + y) * b,
                    x < y,
                    b > 0,
            ;
            if x * b <= a {
                laws::law_rounding_between(w, a, b, last);
            } else {
                laws::law_rounding_respects_values(w, a, b, last);
            }
        }
    }
}

/// One has `2^149` units of single width, and `2^1074` of double width.
pub proof fn law_one()
    ensures
        rounding::units(Width::Single, 0x3f80_0000) == pow2(149),
        rounding::units(Width::Double, 0x3ff0_0000_0000_0000) == pow2(1074),
        rounding::depth(Width::Single) == 149,
        rounding::depth(Width::Double) == 1074,
{
    lemma2_to64();
    lemma2_to64_rest();
    lemma_pow2_adds(23, 126);
    lemma_pow2_adds(52, 1022);
    assert(0x3f80_0000int / 0x80_0000 == 127 && 0x3f80_0000int % 0x80_0000 == 0);
    assert(0x3ff0_0000_0000_0000int / 0x10_0000_0000_0000 == 1023
        && 0x3ff0_0000_0000_0000int % 0x10_0000_0000_0000 == 0);
}

/// The product of two finite numbers is the number nearest to the exact product,
/// and negative if one of the two is.
pub proof fn law_product_is_nearest(w: Width, x: Number, y: Number)
    requires
        number::is_finite(w, x),
        number::is_finite(w, y),
    ensures
        ({
            let r = number::product(w, x, y);
            &&& r.negative <==> x.negative != y.negative
            &&& stands_for(
                w,
                r.code as nat,
                number::magnitude(w, x) * number::magnitude(w, y),
                pow2(rounding::depth(w)),
            )
        }),
{
    let a = number::magnitude(w, x) * number::magnitude(w, y);
    let b = pow2(rounding::depth(w));
    lemma_pow2_pos(rounding::depth(w));
    laws::law_rounding_respects_values(w, a, b, 0);
    law_rounding_stands_for(w, a, b);
}

/// The quotient of two finite numbers is the number nearest to the exact
/// quotient, and negative if one of the two is.
pub proof fn law_quotient_is_nearest(w: Width, x: Number, y: Number)
    requires
        number::is_finite(w, x),
        number::is_finite(w, y),
        y.code != 0,
    ensures
        number::magnitude(w, y) > 0,
        ({
            let r = number::quotient(w, x, y);
            &&& r.negative <==> x.negative != y.negative
            &&& stands_for(
                w,
                r.code as nat,
                number::magnitude(w, x) * pow2(rounding::depth(w)),
                number::magnitude(w, y),
            )
        }),
{
    let a = number::magnitude(w, x) * pow2(rounding::depth(w));
    let b = number::magnitude(w, y);
    laws::law_codes_keep_order(w, 0, y.code as nat);
    laws::law_rounding_respects_values(w, a, b, 0);
    law_rounding_stands_for(w, a, b);
}

/// The sum of two finite numbers is the number nearest to the exact sum, with its
/// sign; a sum of nothing is negative only if both numbers are.
pub proof fn law_sum_is_nearest(w: Width, x: Number, y: Number)
    requires
        number::is_finite(w, x),
        number::is_finite(w, y),
    ensures
        ({
            let r = number::sum(w, x, y);
            let s = number::value(w, x) + number::value(w, y);
            &&& s > 0 ==> !r.negative && stands_for(w, r.code as nat, s as nat, 1)
            &&& s < 0 ==> r.negative && stands_for(w, r.code as nat, (-s) as nat, 1)
            &&& s == 0 ==> r.code == 0 && (r.negative <==> x.negative && y.negative)
        }),
{
    let s = number::value(w, x) + number::value(w, y);
    let n = if s < 0 {
        (-s) as nat
    } else {
        s as nat
    };
    laws::law_rounding_respects_values(w, n, 1, 0);
    law_rounding_stands_for(w, n, 1);
}

/// The difference of two finite numbers is the number nearest to the exact
/// difference, with its sign.
pub proof fn law_difference_is_nearest(w: Width, x: Number, y: Number)
    requires
        number::is_finite(w, x),
        number::is_finite(w, y),
    ensures
        ({
            let r = number::difference(w, x, y);
            let s = number::value(w, x) - number::value(w, y);
            &&& s > 0 ==> !r.negative && stands_for(w, r.code as nat, s as nat, 1)
            &&& s < 0 ==> r.negative && stands_for(w, r.code as nat, (-s) as nat, 1)
            &&& s == 0 ==> r.code == 0 && (r.negative <==> x.negative && !y.negative)
        }),
{
    law_sum_is_nearest(w, x, number::opposite(y));
}

/// A whole number as a number of a width is the nearest one.
pub proof fn law_whole_is_nearest(w: Width, negative: bool, n: nat)
    ensures
        ({
            let r = number::whole(w, negative, n);
            &&& r.negative == negative
            &&& stands_for(w, r.code as nat, n * pow2(rounding::depth(w)), 1)
        }),
{
    let a = n * pow2(rounding::depth(w));
    laws::law_rounding_respects_values(w, a, 1, 0);
    law_rounding_stands_for(w, a, 1);
}

/// A number of single width has the same value at double width, where a unit is
/// `2^925` times smaller.
pub proof fn law_widened_is_exact(x: Number)
    requires
        number::is_finite(Width::Single, x),
    ensures
        ({
            let r = number::widened(x);
            &&& r.negative == x.negative
            &&& number::is_finite(Width::Double, r)
            &&& number::magnitude(Width::Double, r) == number::magnitude(Width::Single, x) * pow2(
                925,
            )
        }),
        pow2(1074) == pow2(149) * pow2(925),
{
    speed::lemma_widened(x);
    lemma_pow2_adds(149, 925);
}

/// A number of double width becomes the nearest one of single width.
pub proof fn law_narrowed_is_nearest(x: Number)
    requires
        number::is_finite(Width::Double, x),
    ensures
        ({
            let r = number::narrowed(x);
            &&& r.negative == x.negative
            &&& stands_for(
                Width::Single,
                r.code as nat,
                number::magnitude(Width::Double, x),
                pow2(925),
            )
        }),
{
    let a = number::magnitude(Width::Double, x);
    lemma_pow2_pos(925);
    laws::law_rounding_respects_values(Width::Single, a, pow2(925), 0);
    law_rounding_stands_for(Width::Single, a, pow2(925));
}

/// The whole part is the largest whole number that is not above a number.
pub proof fn law_whole_part_is_below(w: Width, x: Number)
    ensures
        ({
            let n = number::whole_part(w, x);
            let one = pow2(rounding::depth(w));
            n * one <= number::magnitude(w, x) < (n + 1) * one
        }),
{
    let one = pow2(rounding::depth(w)) as int;
    let m = number::magnitude(w, x) as int;
    lemma_pow2_pos(rounding::depth(w));
    lemma_fundamental_div_mod(m, one);
    let n = m / one;
    assert(n * one == one * n && (n + 1) * one == n * one + one) by (nonlinear_arith);
}

/// What has no value has none after any operation.
pub proof fn law_no_value_stays(w: Width, x: Number, y: Number)
    requires
        number::is_nan(w, x) || number::is_nan(w, y),
    ensures
        number::is_nan(w, number::product(w, x, y)),
        number::is_nan(w, number::quotient(w, x, y)),
        number::is_nan(w, number::sum(w, x, y)),
        number::is_nan(w, number::difference(w, x, y)),
        w is Single && number::is_nan(w, x) ==> number::is_nan(Width::Double, number::widened(x)),
        w is Double && number::is_nan(w, x) ==> number::is_nan(Width::Single, number::narrowed(x)),
{
}

/// Infinity beats every finite number, and gives no value where two limits
/// disagree: infinity times zero, infinity over infinity, and the difference of
/// two equal infinities.
pub proof fn law_infinity(w: Width, x: Number, y: Number)
    requires
        number::is_infinite(w, x),
        !number::is_nan(w, y),
    ensures
        y.code != 0 ==> number::product(w, x, y) == number::infinite(w, x.negative != y.negative)
            && number::product(w, y, x) == number::infinite(w, x.negative != y.negative),
        y.code == 0 ==> number::is_nan(w, number::product(w, x, y)) && number::is_nan(
            w,
            number::product(w, y, x),
        ),
        number::is_finite(w, y) ==> {
            &&& number::quotient(w, x, y) == number::infinite(w, x.negative != y.negative)
            &&& number::quotient(w, y, x) == number::zero(x.negative != y.negative)
            &&& number::sum(w, x, y) == x
            &&& number::sum(w, y, x) == x
            &&& number::difference(w, x, y) == x
            &&& number::difference(w, y, x) == number::infinite(w, !x.negative)
        },
        number::is_infinite(w, y) ==> {
            &&& number::is_nan(w, number::quotient(w, x, y))
            &&& x.negative == y.negative ==> number::sum(w, x, y) == x && number::is_nan(
                w,
                number::difference(w, x, y),
            )
            &&& x.negative != y.negative ==> number::is_nan(w, number::sum(w, x, y))
                && number::difference(w, x, y) == x
        },
        w is Single ==> number::widened(x) == number::infinite(Width::Double, x.negative),
        w is Double ==> number::narrowed(x) == number::infinite(Width::Single, x.negative),
{
}

/// Over zero, a finite number gives infinity, and zero gives no value.
pub proof fn law_over_zero(w: Width, x: Number, y: Number)
    requires
        number::is_finite(w, x),
        y.code == 0,
    ensures
        x.code != 0 ==> number::quotient(w, x, y) == number::infinite(w, x.negative != y.negative),
        x.code == 0 ==> number::is_nan(w, number::quotient(w, x, y)),
{
}

} // verus!
